//! The record schema: which element names hold structures, and which of
//! those structures are arrays.
use vstd::prelude::*;

verus! {

/// How an element is projected: as its text, as an object keyed by the
/// children's names, or as an array of its children.
#[derive(Clone, Copy, Debug, PartialEq, Eq, Structural)]
pub enum Kind {
    Scalar,
    ObjectStructure,
    ArrayStructure,
}

impl Kind {
    pub open spec fn spec_is_structure(self) -> bool {
        self != Kind::Scalar
    }

    /// Both structure kinds count as structures; an array is a refinement of
    /// a structure, not an alternative to it.
    pub fn is_structure(&self) -> (r: bool)
        ensures
            r == self.spec_is_structure(),
    {
        match self {
            Kind::Scalar => false,
            _ => true,
        }
    }
}

/// The name of the top-level record element.
pub open spec fn root_tag() -> Seq<char> {
    "Statistik"@
}

/// The schema as one table: every listed name is a structure, and the
/// array names are marked as such. Names not listed are scalars.
pub open spec fn kind_of(name: Seq<char>) -> Kind {
    if name == "Statistik"@ {
        Kind::ObjectStructure
    } else if name == "KoeretoejAnvendelseStruktur"@ {
        Kind::ObjectStructure
    } else if name == "KoeretoejOplysningGrundStruktur"@ {
        Kind::ObjectStructure
    } else if name == "KoeretoejBetegnelseStruktur"@ {
        Kind::ObjectStructure
    } else if name == "Model"@ {
        Kind::ObjectStructure
    } else if name == "Variant"@ {
        Kind::ObjectStructure
    } else if name == "Type"@ {
        Kind::ObjectStructure
    } else if name == "KoeretoejFarveStruktur"@ {
        Kind::ObjectStructure
    } else if name == "FarveTypeStruktur"@ {
        Kind::ObjectStructure
    } else if name == "KarrosseriTypeStruktur"@ {
        Kind::ObjectStructure
    } else if name == "KoeretoejNormStruktur"@ {
        Kind::ObjectStructure
    } else if name == "NormTypeStruktur"@ {
        Kind::ObjectStructure
    } else if name == "KoeretoejMiljoeOplysningStruktur"@ {
        Kind::ObjectStructure
    } else if name == "KoeretoejMotorStruktur"@ {
        Kind::ObjectStructure
    } else if name == "DrivkraftTypeStruktur"@ {
        Kind::ObjectStructure
    } else if name == "EjerBrugerSamling"@ {
        Kind::ArrayStructure
    } else if name == "EjerBruger"@ {
        Kind::ObjectStructure
    } else if name == "EjerBrugerForholdGrundStruktur"@ {
        Kind::ObjectStructure
    } else if name == "TilladelseSamling"@ {
        Kind::ArrayStructure
    } else if name == "Tilladelse"@ {
        Kind::ObjectStructure
    } else if name == "TilladelseStruktur"@ {
        Kind::ObjectStructure
    } else if name == "TilladelseTypeStruktur"@ {
        Kind::ObjectStructure
    } else if name == "KoeretoejSupplerendeKarrosseriSamlingStruktur"@ {
        Kind::ObjectStructure
    } else if name == "KoeretoejSupplerendeKarrosseriSamling"@ {
        Kind::ArrayStructure
    } else if name == "KoeretoejSupplerendeKarrosseriTypeStruktur"@ {
        Kind::ObjectStructure
    } else if name == "SynResultatStruktur"@ {
        Kind::ObjectStructure
    } else if name == "KoeretoejBlokeringAarsagListeStruktur"@ {
        Kind::ObjectStructure
    } else if name == "KoeretoejBlokeringAarsagListe"@ {
        Kind::ArrayStructure
    } else if name == "KoeretoejBlokeringAarsag"@ {
        Kind::ObjectStructure
    } else if name == "KoeretoejUdstyrSamlingStruktur"@ {
        Kind::ObjectStructure
    } else if name == "KoeretoejUdstyrSamling"@ {
        Kind::ArrayStructure
    } else if name == "KoeretoejUdstyrStruktur"@ {
        Kind::ObjectStructure
    } else if name == "KoeretoejUdstyrTypeStruktur"@ {
        Kind::ObjectStructure
    } else if name == "DispensationTypeSamlingStruktur"@ {
        Kind::ObjectStructure
    } else if name == "DispensationTypeSamling"@ {
        Kind::ArrayStructure
    } else if name == "DispensationTypeStruktur"@ {
        Kind::ObjectStructure
    } else if name == "TilladelseTypeDetaljeValg"@ {
        Kind::ObjectStructure
    } else if name == "KunGodkendtForJuridiskEnhed"@ {
        Kind::ObjectStructure
    } else if name == "JuridiskEnhedIdentifikatorStruktur"@ {
        Kind::ObjectStructure
    } else if name == "JuridiskEnhedValg"@ {
        Kind::ObjectStructure
    } else if name == "KoeretoejAnvendelseSamlingStruktur"@ {
        Kind::ObjectStructure
    } else if name == "KoeretoejAnvendelseSamling"@ {
        Kind::ArrayStructure
    } else if name == "KoeretoejFastKombination"@ {
        Kind::ObjectStructure
    } else if name == "FastTilkobling"@ {
        Kind::ObjectStructure
    } else if name == "VariabelKombination"@ {
        Kind::ObjectStructure
    } else if name == "KoeretoejGenerelIdentifikatorStruktur"@ {
        Kind::ObjectStructure
    } else if name == "KoeretoejGenerelIdentifikatorValg"@ {
        Kind::ObjectStructure
    } else if name == "PENummerCVR"@ {
        Kind::ObjectStructure
    } else {
        Kind::Scalar
    }
}

/// Relies on `str`'s `==`: it is true exactly when both hold the same
/// characters.
#[verifier::external_body]
pub(crate) fn same_text(a: &str, b: &str) -> (r: bool)
    ensures
        r == (a@ == b@),
{
    a == b
}

/// Whether `name` is the top-level record element.
pub fn is_root_tag(name: &str) -> (r: bool)
    ensures
        r == (name@ == root_tag()),
{
    same_text(name, "Statistik")
}

/// Looks `name` up in the schema table.
pub fn classify(name: &str) -> (r: Kind)
    ensures
        r == kind_of(name@),
{
    if same_text(name, "Statistik") {
        Kind::ObjectStructure
    } else if same_text(name, "KoeretoejAnvendelseStruktur") {
        Kind::ObjectStructure
    } else if same_text(name, "KoeretoejOplysningGrundStruktur") {
        Kind::ObjectStructure
    } else if same_text(name, "KoeretoejBetegnelseStruktur") {
        Kind::ObjectStructure
    } else if same_text(name, "Model") {
        Kind::ObjectStructure
    } else if same_text(name, "Variant") {
        Kind::ObjectStructure
    } else if same_text(name, "Type") {
        Kind::ObjectStructure
    } else if same_text(name, "KoeretoejFarveStruktur") {
        Kind::ObjectStructure
    } else if same_text(name, "FarveTypeStruktur") {
        Kind::ObjectStructure
    } else if same_text(name, "KarrosseriTypeStruktur") {
        Kind::ObjectStructure
    } else if same_text(name, "KoeretoejNormStruktur") {
        Kind::ObjectStructure
    } else if same_text(name, "NormTypeStruktur") {
        Kind::ObjectStructure
    } else if same_text(name, "KoeretoejMiljoeOplysningStruktur") {
        Kind::ObjectStructure
    } else if same_text(name, "KoeretoejMotorStruktur") {
        Kind::ObjectStructure
    } else if same_text(name, "DrivkraftTypeStruktur") {
        Kind::ObjectStructure
    } else if same_text(name, "EjerBrugerSamling") {
        Kind::ArrayStructure
    } else if same_text(name, "EjerBruger") {
        Kind::ObjectStructure
    } else if same_text(name, "EjerBrugerForholdGrundStruktur") {
        Kind::ObjectStructure
    } else if same_text(name, "TilladelseSamling") {
        Kind::ArrayStructure
    } else if same_text(name, "Tilladelse") {
        Kind::ObjectStructure
    } else if same_text(name, "TilladelseStruktur") {
        Kind::ObjectStructure
    } else if same_text(name, "TilladelseTypeStruktur") {
        Kind::ObjectStructure
    } else if same_text(name, "KoeretoejSupplerendeKarrosseriSamlingStruktur") {
        Kind::ObjectStructure
    } else if same_text(name, "KoeretoejSupplerendeKarrosseriSamling") {
        Kind::ArrayStructure
    } else if same_text(name, "KoeretoejSupplerendeKarrosseriTypeStruktur") {
        Kind::ObjectStructure
    } else if same_text(name, "SynResultatStruktur") {
        Kind::ObjectStructure
    } else if same_text(name, "KoeretoejBlokeringAarsagListeStruktur") {
        Kind::ObjectStructure
    } else if same_text(name, "KoeretoejBlokeringAarsagListe") {
        Kind::ArrayStructure
    } else if same_text(name, "KoeretoejBlokeringAarsag") {
        Kind::ObjectStructure
    } else if same_text(name, "KoeretoejUdstyrSamlingStruktur") {
        Kind::ObjectStructure
    } else if same_text(name, "KoeretoejUdstyrSamling") {
        Kind::ArrayStructure
    } else if same_text(name, "KoeretoejUdstyrStruktur") {
        Kind::ObjectStructure
    } else if same_text(name, "KoeretoejUdstyrTypeStruktur") {
        Kind::ObjectStructure
    } else if same_text(name, "DispensationTypeSamlingStruktur") {
        Kind::ObjectStructure
    } else if same_text(name, "DispensationTypeSamling") {
        Kind::ArrayStructure
    } else if same_text(name, "DispensationTypeStruktur") {
        Kind::ObjectStructure
    } else if same_text(name, "TilladelseTypeDetaljeValg") {
        Kind::ObjectStructure
    } else if same_text(name, "KunGodkendtForJuridiskEnhed") {
        Kind::ObjectStructure
    } else if same_text(name, "JuridiskEnhedIdentifikatorStruktur") {
        Kind::ObjectStructure
    } else if same_text(name, "JuridiskEnhedValg") {
        Kind::ObjectStructure
    } else if same_text(name, "KoeretoejAnvendelseSamlingStruktur") {
        Kind::ObjectStructure
    } else if same_text(name, "KoeretoejAnvendelseSamling") {
        Kind::ArrayStructure
    } else if same_text(name, "KoeretoejFastKombination") {
        Kind::ObjectStructure
    } else if same_text(name, "FastTilkobling") {
        Kind::ObjectStructure
    } else if same_text(name, "VariabelKombination") {
        Kind::ObjectStructure
    } else if same_text(name, "KoeretoejGenerelIdentifikatorStruktur") {
        Kind::ObjectStructure
    } else if same_text(name, "KoeretoejGenerelIdentifikatorValg") {
        Kind::ObjectStructure
    } else if same_text(name, "PENummerCVR") {
        Kind::ObjectStructure
    } else {
        Kind::Scalar
    }
}

/// Whether elements called `name` hold children rather than text.
pub fn is_struct(name: &str) -> (r: bool)
    ensures
        r == kind_of(name@).spec_is_structure(),
{
    classify(name).is_structure()
}

/// Whether elements called `name` project to an array of their children.
pub fn is_array(name: &str) -> (r: bool)
    ensures
        r == (kind_of(name@) == Kind::ArrayStructure),
{
    match classify(name) {
        Kind::ArrayStructure => true,
        _ => false,
    }
}

} // verus!
