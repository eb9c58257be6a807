//! Backend names: the table of accepted spellings, and the normalisation
//! (surrounding white space removed, ASCII letters lowered) applied to names
//! read from the environment or from callers.

use vstd::prelude::*;
use crate::backend::Backend;

verus! {

/// `c` has the Unicode `White_Space` property (what `char::is_whitespace`
/// tests, and what `str::trim` removes).
pub open spec fn is_white_space(c: char) -> bool {
    let u = c as u32;
    (0x09 <= u <= 0x0d) || u == 0x20 || u == 0x85 || u == 0xa0 || u == 0x1680
        || (0x2000 <= u <= 0x200a) || u == 0x2028 || u == 0x2029 || u == 0x202f
        || u == 0x205f || u == 0x3000
}

/// `s` without its leading white space.
pub open spec fn trim_start(s: Seq<char>) -> Seq<char>
    decreases s.len(),
{
    if s.len() > 0 && is_white_space(s[0]) {
        trim_start(s.drop_first())
    } else {
        s
    }
}

/// `s` without its trailing white space.
pub open spec fn trim_end(s: Seq<char>) -> Seq<char>
    decreases s.len(),
{
    if s.len() > 0 && is_white_space(s.last()) {
        trim_end(s.drop_last())
    } else {
        s
    }
}

/// `s` without leading and trailing white space.
pub open spec fn trim(s: Seq<char>) -> Seq<char> {
    trim_end(trim_start(s))
}

/// ASCII upper-case letters mapped to lower case; every other character kept.
pub open spec fn ascii_lower_char(c: char) -> char {
    if 'A' <= c <= 'Z' { ((c as u32) + 32) as char } else { c }
}

pub open spec fn ascii_lower(s: Seq<char>) -> Seq<char> {
    s.map_values(|c: char| ascii_lower_char(c))
}

/// A name as the library compares it: trimmed, then ASCII-lowered.
pub open spec fn normalize(s: Seq<char>) -> Seq<char> {
    ascii_lower(trim(s))
}

/// The backend a normalised name selects.
pub open spec fn backend_named(name: Seq<char>) -> Option<Backend> {
    if name == "auto"@ {
        Some(Backend::Auto)
    } else if name == "rust"@ || name == "rust-cpu"@ || name == "cpu"@ {
        Some(Backend::RustCpu)
    } else if name == "cube-cpu"@ || name == "cubecl-cpu"@ {
        Some(Backend::CubeCpu)
    } else if name == "hip"@ || name == "cube-hip"@ || name == "cubecl-hip"@ {
        Some(Backend::CubeHip)
    } else {
        None
    }
}

/// The backend a benchmark command line names, compared exactly (no `auto`,
/// no `cpu`, no normalisation).
pub open spec fn bench_backend_named(name: Seq<char>) -> Option<Backend> {
    if name == "rust"@ || name == "rust-cpu"@ {
        Some(Backend::RustCpu)
    } else if name == "cube-cpu"@ || name == "cubecl-cpu"@ {
        Some(Backend::CubeCpu)
    } else if name == "hip"@ || name == "cube-hip"@ || name == "cubecl-hip"@ {
        Some(Backend::CubeHip)
    } else {
        None
    }
}

/// The display name of a backend id.
pub open spec fn spec_backend_name(id: u32) -> Seq<char> {
    if id == 0 {
        "auto"@
    } else if id == 1 {
        "rust-cpu"@
    } else if id == 2 {
        "cubecl-cpu"@
    } else if id == 3 {
        "cubecl-hip"@
    } else {
        "unknown"@
    }
}

/// The accepted backend spellings are pairwise different.
pub proof fn lemma_backend_spellings_distinct()
    ensures
        "auto"@ != "rust"@, "auto"@ != "rust-cpu"@, "auto"@ != "cpu"@, "auto"@ != "cube-cpu"@,
        "auto"@ != "cubecl-cpu"@, "auto"@ != "hip"@, "auto"@ != "cube-hip"@, "auto"@ != "cubecl-hip"@,
        "rust"@ != "cube-cpu"@, "rust"@ != "cubecl-cpu"@, "rust"@ != "hip"@, "rust"@ != "cube-hip"@,
        "rust"@ != "cubecl-hip"@, "rust-cpu"@ != "cube-cpu"@, "rust-cpu"@ != "cubecl-cpu"@,
        "rust-cpu"@ != "hip"@, "rust-cpu"@ != "cube-hip"@, "rust-cpu"@ != "cubecl-hip"@,
        "cpu"@ != "cube-cpu"@, "cpu"@ != "cubecl-cpu"@, "cpu"@ != "hip"@, "cpu"@ != "cube-hip"@,
        "cpu"@ != "cubecl-hip"@, "cube-cpu"@ != "hip"@, "cube-cpu"@ != "cube-hip"@,
        "cube-cpu"@ != "cubecl-hip"@, "cubecl-cpu"@ != "hip"@, "cubecl-cpu"@ != "cube-hip"@,
        "cubecl-cpu"@ != "cubecl-hip"@,
{
    reveal_strlit("auto");
    reveal_strlit("rust");
    reveal_strlit("rust-cpu");
    reveal_strlit("cpu");
    reveal_strlit("cube-cpu");
    reveal_strlit("cubecl-cpu");
    reveal_strlit("hip");
    reveal_strlit("cube-hip");
    reveal_strlit("cubecl-hip");
    assert("cpu"@.len() == 3 && "hip"@.len() == 3 && "auto"@.len() == 4 && "rust"@.len() == 4);
    assert("rust-cpu"@.len() == 8 && "cube-cpu"@.len() == 8 && "cube-hip"@.len() == 8);
    assert("cubecl-cpu"@.len() == 10 && "cubecl-hip"@.len() == 10);
    assert("auto"@[0] == 'a' && "rust"@[0] == 'r');
    assert("cpu"@[0] == 'c' && "hip"@[0] == 'h');
    assert("rust-cpu"@[0] == 'r' && "cube-cpu"@[0] == 'c' && "cube-hip"@[0] == 'c');
    assert("cube-cpu"@[5] == 'c' && "cube-hip"@[5] == 'h');
    assert("cubecl-cpu"@[7] == 'c' && "cubecl-hip"@[7] == 'h');
}

/// Whether `c` is white space (Unicode `White_Space`).
pub fn white_space(c: char) -> (r: bool)
    ensures
        r == is_white_space(c),
{
    let u = c as u32;
    (0x09 <= u && u <= 0x0d) || u == 0x20 || u == 0x85 || u == 0xa0 || u == 0x1680
        || (0x2000 <= u && u <= 0x200a) || u == 0x2028 || u == 0x2029 || u == 0x202f
        || u == 0x205f || u == 0x3000
}

proof fn lemma_trim_start_skip(s: Seq<char>, i: int)
    requires
        0 <= i < s.len(),
        is_white_space(s[i]),
    ensures
        trim_start(s.subrange(i, s.len() as int)) == trim_start(s.subrange(i + 1, s.len() as int)),
{
    let t = s.subrange(i, s.len() as int);
    assert(t.drop_first() =~= s.subrange(i + 1, s.len() as int));
}

proof fn lemma_trim_end_skip(s: Seq<char>, j: int)
    requires
        0 < j <= s.len(),
        is_white_space(s[j - 1]),
    ensures
        trim_end(s.subrange(0, j)) == trim_end(s.subrange(0, j - 1)),
{
    let t = s.subrange(0, j);
    assert(t.drop_last() =~= s.subrange(0, j - 1));
}

/// Character bounds `[start, end)` of `s` without its surrounding white space.
pub fn trimmed_bounds(s: &str) -> (r: (usize, usize))
    ensures
        r.0 <= r.1 <= s@.len(),
        s@.subrange(r.0 as int, r.1 as int) == trim(s@),
{
    let len = s.unicode_len();
    let mut i: usize = 0;
    assert(s@.subrange(0, s@.len() as int) =~= s@);
    while i < len && white_space(s.get_char(i))
        invariant
            i <= len == s@.len(),
            trim_start(s@) == trim_start(s@.subrange(i as int, len as int)),
        decreases len - i,
    {
        proof {
            lemma_trim_start_skip(s@, i as int);
        }
        i += 1;
    }
    let ghost rest = s@.subrange(i as int, len as int);
    assert(trim_start(s@) == rest) by {
        if rest.len() > 0 {
            assert(rest[0] == s@[i as int]);
        }
    }
    let mut j: usize = len;
    assert(rest.subrange(0, rest.len() as int) =~= rest);
    while j > i && white_space(s.get_char(j - 1))
        invariant
            i <= j <= len == s@.len(),
            rest == s@.subrange(i as int, len as int),
            trim_end(rest) == trim_end(rest.subrange(0, j - i)),
        decreases j,
    {
        proof {
            assert(rest[j - 1 - i] == s@[j - 1]);
            lemma_trim_end_skip(rest, j - i);
        }
        j -= 1;
    }
    let ghost kept = rest.subrange(0, j - i);
    assert(trim_end(kept) == kept) by {
        if kept.len() > 0 {
            assert(kept.last() == s@[j - 1]);
        }
    }
    assert(kept =~= s@.subrange(i as int, j as int));
    (i, j)
}

/// Whether two strings hold the same characters.
pub fn same_text(a: &str, b: &str) -> (r: bool)
    ensures
        r == (a@ == b@),
{
    let n = a.unicode_len();
    if n != b.unicode_len() {
        return false;
    }
    let mut k: usize = 0;
    while k < n
        invariant
            k <= n == a@.len() == b@.len(),
            forall|t: int| 0 <= t < k ==> a@[t] == b@[t],
        decreases n - k,
    {
        if a.get_char(k) != b.get_char(k) {
            return false;
        }
        k += 1;
    }
    assert(a@ =~= b@);
    true
}

/// `str::to_ascii_lowercase`: a copy of `s` with the ASCII letters `A`..`Z`
/// mapped to `a`..`z` and every other character unchanged, as the standard
/// library documents it.
#[verifier::external_body]
fn to_ascii_lowercase(s: &str) -> (r: String)
    ensures
        r@ == ascii_lower(s@),
{
    s.to_ascii_lowercase()
}

/// A name as the library compares it: without surrounding white space, and
/// with ASCII letters in lower case.
pub fn normalized_name(name: &str) -> (r: String)
    ensures
        r@ == normalize(name@),
{
    let (start, end) = trimmed_bounds(name);
    let kept = name.substring_char(start, end);
    to_ascii_lowercase(kept)
}

/// The backend that a normalised name selects, if any.
pub fn backend_for_name(name: &str) -> (r: Option<Backend>)
    ensures
        r == backend_named(name@),
        name@ == "auto"@ ==> r == Some(Backend::Auto),
        name@ == "rust"@ || name@ == "rust-cpu"@ || name@ == "cpu"@ ==> r == Some(Backend::RustCpu),
        name@ == "cube-cpu"@ || name@ == "cubecl-cpu"@ ==> r == Some(Backend::CubeCpu),
        name@ == "hip"@ || name@ == "cube-hip"@ || name@ == "cubecl-hip"@ ==> r == Some(Backend::CubeHip),
        r is None <==> !(name@ == "auto"@ || name@ == "rust"@ || name@ == "rust-cpu"@ || name@ == "cpu"@
            || name@ == "cube-cpu"@ || name@ == "cubecl-cpu"@ || name@ == "hip"@ || name@ == "cube-hip"@
            || name@ == "cubecl-hip"@),
{
    proof {
        lemma_backend_spellings_distinct();
    }
    if same_text(name, "auto") {
        Some(Backend::Auto)
    } else if same_text(name, "rust") || same_text(name, "rust-cpu") || same_text(name, "cpu") {
        Some(Backend::RustCpu)
    } else if same_text(name, "cube-cpu") || same_text(name, "cubecl-cpu") {
        Some(Backend::CubeCpu)
    } else if same_text(name, "hip") || same_text(name, "cube-hip") || same_text(name, "cubecl-hip") {
        Some(Backend::CubeHip)
    } else {
        None
    }
}

/// The backend a benchmark command line names, spelled exactly.
pub fn parse_backend(value: &str) -> (r: Option<Backend>)
    ensures
        r == bench_backend_named(value@),
        value@ == "rust"@ || value@ == "rust-cpu"@ ==> r == Some(Backend::RustCpu),
        value@ == "cube-cpu"@ || value@ == "cubecl-cpu"@ ==> r == Some(Backend::CubeCpu),
        value@ == "hip"@ || value@ == "cube-hip"@ || value@ == "cubecl-hip"@ ==> r == Some(Backend::CubeHip),
        r is None <==> !(value@ == "rust"@ || value@ == "rust-cpu"@ || value@ == "cube-cpu"@
            || value@ == "cubecl-cpu"@ || value@ == "hip"@ || value@ == "cube-hip"@ || value@ == "cubecl-hip"@),
{
    proof {
        lemma_backend_spellings_distinct();
    }
    if same_text(value, "rust") || same_text(value, "rust-cpu") {
        Some(Backend::RustCpu)
    } else if same_text(value, "cube-cpu") || same_text(value, "cubecl-cpu") {
        Some(Backend::CubeCpu)
    } else if same_text(value, "hip") || same_text(value, "cube-hip") || same_text(value, "cubecl-hip") {
        Some(Backend::CubeHip)
    } else {
        None
    }
}

/// The display name of a backend id; `"unknown"` for ids above 3.
pub fn backend_name(id: u32) -> (r: &'static str)
    ensures
        r@ == spec_backend_name(id),
{
    match id {
        0 => "auto",
        1 => "rust-cpu",
        2 => "cubecl-cpu",
        3 => "cubecl-hip",
        _ => "unknown",
    }
}

/// The id of the backend a (not yet normalised) name selects, or -1.
pub fn backend_from_name(name: &str) -> (r: i32)
    ensures
        r == match backend_named(normalize(name@)) {
            Some(b) => crate::backend::spec_backend_id(b) as i32,
            None => -1i32,
        },
{
    let text = normalized_name(name);
    match backend_for_name(text.as_str()) {
        Some(b) => b.id() as i32,
        None => -1,
    }
}

} // verus!
