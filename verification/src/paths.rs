//! Building file system paths the way `std::path::PathBuf::push` does on Unix.

use vstd::prelude::*;
use vstd::string::*;

verus! {

/// `PathBuf::push` on Unix, as its documentation states it: an absolute
/// component replaces the path; otherwise the component is appended, with a
/// `/` between the two unless the path is empty or already ends with one.
pub open spec fn path_push(base: Seq<char>, component: Seq<char>) -> Seq<char> {
    if component.len() > 0 && component[0] == '/' {
        component
    } else if base.len() == 0 || base.last() == '/' {
        base + component
    } else {
        base + seq!['/'] + component
    }
}

/// The path of the executable that runs the unit `name` in the directory
/// `units_path`: the components `units_path`, `name` and `run`, pushed in turn
/// onto an empty path.
pub open spec fn unit_exec_path(units_path: Seq<char>, name: Seq<char>) -> Seq<char> {
    path_push(path_push(path_push(Seq::empty(), units_path), name), seq!['r', 'u', 'n'])
}

/// Pushes `component` onto the path `base`.
pub fn push_path(base: String, component: &str) -> (r: String)
    ensures
        r@ == path_push(base@, component@),
{
    let clen = component.unicode_len();
    if clen > 0 && component.get_char(0) == '/' {
        return component.to_owned();
    }
    let blen = base.as_str().unicode_len();
    let mut result = base;
    if blen > 0 && result.as_str().get_char(blen - 1) != '/' {
        result.append("/");
        proof {
            reveal_strlit("/");
        }
    }
    result.append(component);
    result
}

/// The path of the `run` executable of the unit `name` under `units_path`.
pub fn exec_path(units_path: &str, name: &str) -> (r: String)
    ensures
        r@ == unit_exec_path(units_path@, name@),
{
    let p = push_path(String::new(), units_path);
    let p = push_path(p, name);
    proof {
        reveal_strlit("run");
    }
    let r = push_path(p, "run");
    assert("run"@ =~= seq!['r', 'u', 'n']);
    r
}

} // verus!
