//! The decisions of a run: which flow the flags select, and which files of the
//! component directory are regenerated output.

use vstd::prelude::*;

verus! {

/// What one run of the tool does.
#[derive(Clone, Copy, Debug, PartialEq, Eq)]
pub enum Mode {
    /// Build the manifest and report drift against the committed one.
    Generate,
    /// Regenerate the components and compare their manifest with the committed one.
    Check,
    /// Print how the tool is used.
    Usage,
}

/// The flow that the flags select; `--generate` wins over `--check`.
pub fn select_mode(generate: bool, check: bool) -> (r: Mode)
    ensures
        generate ==> r == Mode::Generate,
        !generate && check ==> r == Mode::Check,
        !generate && !check ==> r == Mode::Usage,
{
    if generate {
        Mode::Generate
    } else if check {
        Mode::Check
    } else {
        Mode::Usage
    }
}

/// Whether a file name ends with `.tsx`.
pub open spec fn is_tsx_name(name: Seq<char>) -> bool {
    name.len() >= 4 && name.skip(name.len() - 4) == seq!['.', 't', 's', 'x']
}

/// Whether a file of the component directory is generated output, which a
/// check removes before regenerating: its name ends with `.tsx`.
pub fn is_component_file(name: &str) -> (r: bool)
    ensures
        r == is_tsx_name(name@),
{
    let n = name.unicode_len();
    if n < 4 {
        return false;
    }
    let r = name.get_char(n - 4) == '.' && name.get_char(n - 3) == 't' && name.get_char(n - 2)
        == 's' && name.get_char(n - 1) == 'x';
    proof {
        let t = name@.skip(n - 4);
        if r {
            assert(t =~= seq!['.', 't', 's', 'x']);
        } else {
            assert(t[0] == name@[n - 4] && t[1] == name@[n - 3] && t[2] == name@[n - 2] && t[3]
                == name@[n - 1]);
        }
    }
    r
}

} // verus!
