//! Panel geometry constants and configuration parsing.

use vstd::prelude::*;

use crate::types::BackendKind;

verus! {

/// Edge length of a rasterized icon, in logical pixels.
pub const ICON_SIZE: u32 = 77;

/// Horizontal gap between two items of the panel.
pub const ICON_SPACING: u32 = 22;

/// Padding between the panel border and its items.
pub const PANEL_PADDING: u32 = 14;

/// Padding the selection highlight adds around an icon.
pub const HIGHLIGHT_PADDING: u32 = 24;

/// Panel opacity in thousandths (1000 = fully opaque).
pub const PANEL_OPACITY_PERMILLE: u32 = 1000;

/// The panel opacity as an 8-bit alpha value: the configured
/// thousandths clamped to the opaque ceiling, scaled to 0..=255 and
/// rounded to the nearest integer.
pub open spec fn spec_panel_opacity_alpha() -> int {
    let clamped: int = if PANEL_OPACITY_PERMILLE > 1000 {
        1000
    } else {
        PANEL_OPACITY_PERMILLE as int
    };
    (clamped * 255 + 500) / 1000
}

/// 8-bit alpha channel value for the panel background.
pub fn panel_opacity_alpha() -> (a: u8)
    ensures
        a as int == spec_panel_opacity_alpha(),
{
    let clamped: u32 = if PANEL_OPACITY_PERMILLE > 1000 {
        1000
    } else {
        PANEL_OPACITY_PERMILLE
    };
    ((clamped * 255 + 500) / 1000) as u8
}

/// Why a backend selection was rejected.
#[derive(Clone, Copy, Debug, PartialEq, Eq, Structural)]
pub enum BackendParseError {
    /// A `--backend` value named no known compositor.
    Unknown,
    /// No `--backend` flag with a value was given.
    Missing,
}

/// The backend a single `--backend` value names.
pub open spec fn spec_classify_backend(v: Seq<char>) -> Result<BackendKind, BackendParseError> {
    if v == "niri"@ {
        Ok(BackendKind::Niri)
    } else if v == "sway"@ {
        Ok(BackendKind::Sway)
    } else if v == "hyprland"@ {
        Ok(BackendKind::Hyprland)
    } else if v == "kwin"@ {
        Ok(BackendKind::Kwin)
    } else if v == "gnome"@ {
        Ok(BackendKind::Gnome)
    } else {
        Err(BackendParseError::Unknown)
    }
}

/// The backend selected by an argument list: the value following the
/// first `--backend` flag decides; a flag without a value, or no
/// flag at all, is a missing selection.
pub open spec fn spec_parse_backend(args: Seq<String>) -> Result<BackendKind, BackendParseError>
    decreases args.len(),
{
    if args.len() == 0 {
        Err(BackendParseError::Missing)
    } else if args[0]@ == "--backend"@ {
        if args.len() >= 2 {
            spec_classify_backend(args[1]@)
        } else {
            Err(BackendParseError::Missing)
        }
    } else {
        spec_parse_backend(args.drop_first())
    }
}

/// Whether two strings hold the same characters.
fn str_eq(a: &str, b: &str) -> (r: bool)
    ensures
        r == (a@ == b@),
{
    let na = a.unicode_len();
    let nb = b.unicode_len();
    if na != nb {
        return false;
    }
    let mut i: usize = 0;
    while i < na
        invariant
            i <= na,
            na == a@.len(),
            na == b@.len(),
            forall|j: int| 0 <= j < i ==> a@[j] == b@[j],
        decreases na - i,
    {
        if a.get_char(i) != b.get_char(i) {
            return false;
        }
        i = i + 1;
    }
    proof {
        assert(a@ =~= b@);
    }
    true
}

fn classify_backend(value: &str) -> (r: Result<BackendKind, BackendParseError>)
    ensures
        r == spec_classify_backend(value@),
{
    if str_eq(value, "niri") {
        Ok(BackendKind::Niri)
    } else if str_eq(value, "sway") {
        Ok(BackendKind::Sway)
    } else if str_eq(value, "hyprland") {
        Ok(BackendKind::Hyprland)
    } else if str_eq(value, "kwin") {
        Ok(BackendKind::Kwin)
    } else if str_eq(value, "gnome") {
        Ok(BackendKind::Gnome)
    } else {
        Err(BackendParseError::Unknown)
    }
}

proof fn lemma_parse_backend_prefix(args: Seq<String>, i: int)
    requires
        0 <= i <= args.len(),
        forall|j: int| 0 <= j < i ==> args[j]@ != "--backend"@,
    ensures
        spec_parse_backend(args) == spec_parse_backend(args.skip(i)),
    decreases i,
{
    if i == 0 {
        assert(args.skip(0) =~= args);
    } else {
        lemma_parse_backend_prefix(args, i - 1);
        assert(args.skip(i - 1).len() > 0);
        assert(args.skip(i - 1)[0] == args[i - 1]);
        assert(args.skip(i - 1).drop_first() =~= args.skip(i));
    }
}

/// Select the backend from the daemon's argument list: the value
/// after the first `--backend` flag. Every known compositor name is
/// accepted here; the ones without a working adapter fail later, at
/// the first adapter operation.
pub fn parse_backend_required(args: &Vec<String>) -> (r: Result<BackendKind, BackendParseError>)
    ensures
        r == spec_parse_backend(args@),
{
    let ghost s = args@;
    let mut i: usize = 0;
    while i < args.len()
        invariant
            i <= s.len(),
            args@ == s,
            forall|j: int| 0 <= j < i ==> s[j]@ != "--backend"@,
        decreases s.len() - i,
    {
        if str_eq(args[i].as_str(), "--backend") {
            proof {
                lemma_parse_backend_prefix(s, i as int);
                assert(s.skip(i as int)[0] == s[i as int]);
            }
            if i + 1 < args.len() {
                proof {
                    assert(s.skip(i as int)[1] == s[i + 1]);
                }
                return classify_backend(args[i + 1].as_str());
            } else {
                return Err(BackendParseError::Missing);
            }
        }
        i = i + 1;
    }
    proof {
        lemma_parse_backend_prefix(s, s.len() as int);
    }
    Err(BackendParseError::Missing)
}

} // verus!
