use vstd::prelude::*;
use vstd::string::StrSliceExecFns;

use crate::error::{invalid_argument, ErrorView, RunnerError, StatusCode};
use crate::text::chars_of;

verus! {

broadcast use vstd::string::group_string_axioms;

/// Position of the last `.` in `s`, if any.
pub open spec fn last_dot(s: Seq<char>) -> Option<int> {
    if exists|i: int| 0 <= i < s.len() && s[i] == '.' {
        Some(choose|i: int| 0 <= i < s.len() && s[i] == '.' && forall|k: int| i < k < s.len() ==> s[k] != '.')
    } else {
        None
    }
}

/// A file name of the form `<stem>.<ext>`, `ext` following the last dot,
/// whose stem is not empty (a name that starts with its only dot has no
/// extension), by its stem.
pub open spec fn ext_stem(name: Seq<char>, ext: Seq<char>) -> Option<Seq<char>> {
    match last_dot(name) {
        Some(p) => if p > 0 && name.skip(p + 1) == ext {
            Some(name.take(p))
        } else {
            None
        },
        None => None,
    }
}

/// A file name of the form `<stem>.exe`, by its stem.
pub open spec fn exe_stem(name: Seq<char>) -> Option<Seq<char>> {
    ext_stem(name, seq!['e', 'x', 'e'])
}

/// The model names offered by a directory of executables: the stems of its
/// `*.exe` files, each once.
pub struct Allowlist {
    names: Vec<String>,
}

impl Allowlist {
    pub closed spec fn models(&self) -> Seq<Seq<char>> {
        self.names@.map_values(|s: String| s@)
    }

    /// Whether `model` names an executable of the list.
    pub open spec fn allows(&self, model: Seq<char>) -> bool {
        self.models().contains(model)
    }

    pub closed spec fn wf(&self) -> bool {
        self.models().no_duplicates()
    }

    /// An empty list.
    pub fn new() -> (a: Allowlist)
        ensures
            a.wf(),
            forall|m: Seq<char>| !a.allows(m),
    {
        Allowlist { names: Vec::new() }
    }

    /// The list of a directory whose file names are `file_names`.
    pub fn from_file_names(file_names: &Vec<String>) -> (a: Allowlist)
        ensures
            a.wf(),
            forall|m: Seq<char>|
                a.allows(m) <==> exists|i: int|
                    0 <= i < file_names@.len() && exe_stem(#[trigger] file_names@[i]@) == Some(m),
    {
        let mut a = Allowlist::new();
        let mut i: usize = 0;
        while i < file_names.len()
            invariant
                i <= file_names@.len(),
                a.wf(),
                forall|m: Seq<char>|
                    a.allows(m) <==> exists|k: int|
                        0 <= k < i && exe_stem(#[trigger] file_names@[k]@) == Some(m),
            decreases file_names@.len() - i,
        {
            let stem = executable_stem(file_names[i].as_str());
            match stem {
                Some(s) => {
                    a.insert(s);
                },
                None => {},
            }
            proof {
                assert forall|m: Seq<char>|
                    a.allows(m) <==> exists|k: int|
                        0 <= k < i + 1 && exe_stem(#[trigger] file_names@[k]@) == Some(m) by {
                    if exists|k: int| 0 <= k < i + 1 && exe_stem(#[trigger] file_names@[k]@) == Some(m) {
                        let k = choose|k: int| 0 <= k < i + 1 && exe_stem(#[trigger] file_names@[k]@) == Some(m);
                        if k < i {
                        }
                    }
                }
            }
            i = i + 1;
        }
        a
    }

    fn insert(&mut self, model: String)
        requires
            old(self).wf(),
        ensures
            final(self).wf(),
            forall|m: Seq<char>| final(self).allows(m) <==> (old(self).allows(m) || m == model@),
    {
        if !self.contains(model.as_str()) {
            let ghost before = self.models();
            self.names.push(model);
            proof {
                assert(self.models() =~= before.push(model@));
                assert forall|m: Seq<char>| self.allows(m) <==> (before.contains(m) || m == model@) by {
                    if self.models().contains(m) {
                        let k = choose|k: int| 0 <= k < self.models().len() && self.models()[k] == m;
                        if k < before.len() {
                            assert(before[k] == m);
                        }
                    }
                    if before.contains(m) {
                        let k = choose|k: int| 0 <= k < before.len() && before[k] == m;
                        assert(self.models()[k] == m);
                    }
                    if m == model@ {
                        assert(self.models()[before.len() as int] == m);
                    }
                }
            }
        }
    }

    /// Whether `model` names an executable of the list.
    pub fn contains(&self, model: &str) -> (b: bool)
        ensures
            b == self.allows(model@),
    {
        let target = model.to_owned();
        let mut i: usize = 0;
        while i < self.names.len()
            invariant
                i <= self.names@.len(),
                target@ == model@,
                forall|k: int| 0 <= k < i ==> self.models()[k] != model@,
            decreases self.names@.len() - i,
        {
            if self.names[i] == target {
                assert(self.models()[i as int] == model@);
                return true;
            }
            i = i + 1;
        }
        proof {
            if self.models().contains(model@) {
                let k = choose|k: int| 0 <= k < self.models().len() && self.models()[k] == model@;
                assert(self.models()[k] != model@);
            }
        }
        false
    }

    /// How many models the list offers.
    pub fn len(&self) -> (n: usize)
        requires
            self.wf(),
        ensures
            n == self.models().len(),
    {
        self.names.len()
    }

    /// The executable file of `model`: `<model>.exe` when the list offers it,
    /// else an `InvalidArgument` error.
    pub fn resolve_executable(&self, model: &str) -> (res: Result<String, RunnerError>)
        ensures
            res matches Ok(exe) ==> self.allows(model@) && exe@ == model@ + ".exe"@,
            res matches Err(e) ==> !self.allows(model@) && e@ == unknown_model_error(model@),
    {
        if self.contains(model) {
            Ok(model.to_owned().concat(".exe"))
        } else {
            Err(RunnerError::new(StatusCode::InvalidArgument, "unknown model: ".to_owned().concat(model)))
        }
    }
}

/// The answer to a model that the list does not offer.
pub open spec fn unknown_model_error(model: Seq<char>) -> ErrorView {
    invalid_argument("unknown model: "@ + model)
}

/// The stem of a file name whose extension is `ext`, if it is one.
pub fn stem_for_extension(name: &str, ext: &str) -> (res: Option<String>)
    ensures
        res matches Some(s) ==> ext_stem(name@, ext@) == Some(s@),
        res is None ==> ext_stem(name@, ext@) is None,
{
    let chars = chars_of(name);
    let want = chars_of(ext);
    let n = chars.len();
    let mut i: usize = n;
    while i > 0
        invariant
            i <= n,
            n == chars@.len(),
            forall|k: int| i <= k < n ==> chars@[k] != '.',
        ensures
            i <= n,
            forall|k: int| i <= k < n ==> chars@[k] != '.',
            i == 0 || chars@[i - 1] == '.',
        decreases i,
    {
        if chars[i - 1] == '.' {
            break;
        }
        i = i - 1;
    }
    // i == 0: no dot; otherwise the last dot stands at i - 1
    if i == 0 {
        proof {
            assert(!(exists|k: int| 0 <= k < n && chars@[k] == '.'));
        }
        return None;
    }
    let p = i - 1;
    proof {
        assert(chars@[p as int] == '.');
        let q = last_dot(name@)->0;
        assert(0 <= q < n && chars@[q] == '.');
        assert(q == p);
    }
    if p == 0 || n - i != want.len() {
        proof {
            assert(name@.skip(p + 1).len() == n - i);
        }
        return None;
    }
    let mut k: usize = 0;
    while k < want.len()
        invariant
            n == chars@.len(),
            chars@ == name@,
            want@ == ext@,
            p + 1 == i,
            p > 0,
            last_dot(name@) == Some(p as int),
            i <= n,
            n - i == want@.len(),
            k <= want@.len(),
            forall|j: int| 0 <= j < k ==> chars@[i + j] == want@[j],
        decreases want@.len() - k,
    {
        if chars[i + k] != want[k] {
            proof {
                assert(name@.skip(p + 1)[k as int] == chars@[i + k]);
                assert(name@.skip(p + 1) != ext@);
            }
            return None;
        }
        k = k + 1;
    }
    proof {
        assert(name@.skip(p + 1) =~= ext@);
    }
    Some(name.substring_char(0, p).to_owned())
}

/// The stem of a `*.exe` file name, if it is one.
pub fn executable_stem(name: &str) -> (res: Option<String>)
    ensures
        res matches Some(s) ==> exe_stem(name@) == Some(s@),
        res is None ==> exe_stem(name@) is None,
{
    proof {
        reveal_strlit("exe");
        assert("exe"@ =~= seq!['e', 'x', 'e']);
    }
    stem_for_extension(name, "exe")
}

/// The service's settings that decisions depend on.
pub struct ServiceConfig {
    pub allowlist: Allowlist,
    pub default_timeout: u64,
    pub chunk_size: usize,
}

impl ServiceConfig {
    /// The timeout of a run: the one requested, else the default.
    pub fn timeout_or_default(&self, requested: Option<u32>) -> (secs: u64)
        ensures
            secs == match requested {
                Some(s) => s as u64,
                None => self.default_timeout,
            },
    {
        match requested {
            Some(s) => s as u64,
            None => self.default_timeout,
        }
    }
}

} // verus!
