use vstd::prelude::*;
use vstd::string::StrSliceExecFns;

verus! {

/// The procedural shaders that a draw call can select.
#[derive(Clone, Copy, Debug, PartialEq, Eq, Structural)]
pub enum ShaderKind {
    /// Hands the fragment's base colour on unchanged.
    Default,
    Sun,
    Mercury,
    Earth,
    Mars,
    Uranus,
    Nave,
    Zephyr,
    Pyrion,
    Glacia,
    Umbraleth,
    Verdis,
}

/// The shader that a body of the given name is drawn with. A name that the
/// registry does not know selects the default shader.
pub open spec fn shader_named(name: Seq<char>) -> ShaderKind {
    if name == "Voidheart"@ {
        ShaderKind::Umbraleth
    } else if name == "Zephyr"@ {
        ShaderKind::Zephyr
    } else if name == "Pyrion"@ {
        ShaderKind::Pyrion
    } else if name == "Glacia"@ {
        ShaderKind::Glacia
    } else if name == "Umbraleth"@ {
        ShaderKind::Umbraleth
    } else if name == "Verdis"@ {
        ShaderKind::Verdis
    } else if name == "Crystallos"@ {
        ShaderKind::Earth
    } else if name == "Vulcanus"@ {
        ShaderKind::Mars
    } else if name == "Lunaris"@ {
        ShaderKind::Mercury
    } else if name == "Stellaris"@ {
        ShaderKind::Sun
    } else if name == "Nave"@ {
        ShaderKind::Nave
    } else {
        ShaderKind::Default
    }
}

/// Whether two strings hold the same characters.
pub fn same_text(left: &str, right: &str) -> (same: bool)
    ensures
        same == (left@ == right@),
{
    let n: usize = left.unicode_len();
    if right.unicode_len() != n {
        return false;
    }
    let mut i: usize = 0;
    while i < n
        invariant
            n == left@.len(),
            n == right@.len(),
            i <= n,
            forall|k: int| 0 <= k < i ==> left@[k] == right@[k],
        decreases n - i,
    {
        if left.get_char(i) != right.get_char(i) {
            return false;
        }
        i += 1;
    }
    assert(left@ =~= right@);
    true
}

impl ShaderKind {
    /// Selects a shader by the name of the body that is drawn.
    pub fn from_name(name: &str) -> (kind: ShaderKind)
        ensures
            kind == shader_named(name@),
    {
        if same_text(name, "Voidheart") {
            ShaderKind::Umbraleth
        } else if same_text(name, "Zephyr") {
            ShaderKind::Zephyr
        } else if same_text(name, "Pyrion") {
            ShaderKind::Pyrion
        } else if same_text(name, "Glacia") {
            ShaderKind::Glacia
        } else if same_text(name, "Umbraleth") {
            ShaderKind::Umbraleth
        } else if same_text(name, "Verdis") {
            ShaderKind::Verdis
        } else if same_text(name, "Crystallos") {
            ShaderKind::Earth
        } else if same_text(name, "Vulcanus") {
            ShaderKind::Mars
        } else if same_text(name, "Lunaris") {
            ShaderKind::Mercury
        } else if same_text(name, "Stellaris") {
            ShaderKind::Sun
        } else if same_text(name, "Nave") {
            ShaderKind::Nave
        } else {
            ShaderKind::Default
        }
    }
}

} // verus!
