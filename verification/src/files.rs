//! Path-level helpers for the command-line layer: paths are handled as plain
//! strings here; the caller performs the filesystem checks and hands their
//! results in.
use vstd::prelude::*;
use vstd::string::StrSliceExecFns;
use vstd::string::StringExecFns;

verus! {

broadcast use vstd::std_specs::vec::group_vec_axioms, vstd::seq::group_seq_axioms;

/// Gets a displayable string of a path.
pub fn get_path_str(path: &String) -> (r: &str)
    ensures
        r@ == path@,
{
    path.as_str()
}

/// The views of a sequence of strings.
pub open spec fn string_views(s: Seq<String>) -> Seq<Seq<char>> {
    Seq::new(s.len(), |i: int| if 0 <= i < s.len() { s[i]@ } else { Seq::empty() })
}

/// The paths whose presence flag is false, in their original order.
pub open spec fn spec_missing(paths: Seq<Seq<char>>, present: Seq<bool>) -> Seq<Seq<char>>
    decreases paths.len(),
{
    if paths.len() == 0 {
        Seq::empty()
    } else {
        spec_missing(paths.drop_last(), present.drop_last()) + if present[paths.len() - 1] {
            Seq::empty()
        } else {
            seq![paths.last()]
        }
    }
}

/// Gets the list of file paths that are not existing files, given the paths
/// and, for each, whether it names an existing file (the caller's filesystem
/// check). Returns exactly the paths flagged absent, in order.
#[verifier::loop_isolation(false)]
pub fn get_missing_files(input_paths: &Vec<String>, present: &Vec<bool>) -> (r: Vec<String>)
    requires
        input_paths@.len() == present@.len(),
    ensures
        string_views(r@) == spec_missing(string_views(input_paths@), present@),
{
    let mut missing_files: Vec<String> = Vec::new();
    let mut i: usize = 0;
    proof {
        assert(string_views(input_paths@).take(0) =~= string_views(input_paths@.take(0)));
    }
    while i < input_paths.len()
        invariant
            i <= input_paths@.len(),
            string_views(missing_files@) == spec_missing(
                string_views(input_paths@).take(i as int),
                present@.take(i as int),
            ),
        decreases input_paths@.len() - i,
    {
        let ghost before = string_views(missing_files@);
        if !present[i] {
            missing_files.push(input_paths[i].clone());
            assert(string_views(missing_files@) =~= before.push(input_paths@[i as int]@));
        }
        proof {
            let pv = string_views(input_paths@);
            assert(pv.take(i + 1).drop_last() =~= pv.take(i as int));
            assert(present@.take(i + 1).drop_last() =~= present@.take(i as int));
            assert(string_views(missing_files@) =~= spec_missing(
                pv.take(i + 1),
                present@.take(i + 1),
            ));
        }
        i = i + 1;
    }
    proof {
        let pv = string_views(input_paths@);
        assert(pv.take(pv.len() as int) =~= pv);
        assert(present@.take(present@.len() as int) =~= present@);
    }
    missing_files
}

/// The index of the dot that starts the extension, scanning backward from
/// `j`: the last dot of the file name, provided it is neither the name's
/// first character nor its only content before a separator.
pub open spec fn spec_ext_dot(s: Seq<char>, j: int) -> Option<int>
    decreases j + 1,
{
    if j < 0 || j >= s.len() {
        None
    } else if s[j] == '/' {
        None
    } else if s[j] == '.' {
        if j > 0 && s[j - 1] != '/' {
            Some(j)
        } else {
            None
        }
    } else {
        spec_ext_dot(s, j - 1)
    }
}

/// The end of the path's last component: the index just past the last
/// character that is not a separator, at or before `j`.
pub open spec fn spec_trim_end(s: Seq<char>, j: int) -> int
    decreases j + 1,
{
    if j < 0 || j >= s.len() {
        0
    } else if s[j] == '/' {
        spec_trim_end(s, j - 1)
    } else {
        j + 1
    }
}

/// The format named by the path's extension, if it is one of the three
/// text-format extensions. Trailing separators are not part of the file
/// name and are skipped.
pub open spec fn spec_format_by_extension(s: Seq<char>) -> Option<Seq<char>> {
    let end = spec_trim_end(s, s.len() - 1);
    match spec_ext_dot(s, end - 1) {
        None => None,
        Some(d) => {
            let ext = s.subrange(d + 1, end);
            if ext == "json"@ {
                Some("json"@)
            } else if ext == "yaml"@ {
                Some("yaml"@)
            } else if ext == "toml"@ {
                Some("toml"@)
            } else {
                None
            }
        },
    }
}

/// Compares the path's characters after position `d` and before `end` with a
/// four-character name.
#[verifier::loop_isolation(false)]
fn suffix_is(path: &str, d: usize, end: usize, a: char, b: char, c: char, e: char) -> (r: bool)
    requires
        d < end <= path@.len(),
    ensures
        r == (path@.subrange(d + 1, end as int) == seq![a, b, c, e]),
{
    if end - d != 5 {
        assert(path@.subrange(d + 1, end as int).len() != 4);
        return false;
    }
    let r = path.get_char(d + 1) == a && path.get_char(d + 2) == b && path.get_char(d + 3) == c
        && path.get_char(d + 4) == e;
    proof {
        if r {
            assert(path@.subrange(d + 1, end as int) =~= seq![a, b, c, e]);
        }
    }
    r
}

/// Gets the format named by the file extension of `input_path`: `json`,
/// `yaml` or `toml`, or nothing for any other (or no) extension.
#[verifier::loop_isolation(false)]
pub fn get_format_by_file_extension(input_path: &str) -> (r: Option<String>)
    ensures
        r matches Some(f) ==> spec_format_by_extension(input_path@) == Some(f@),
        r is None ==> spec_format_by_extension(input_path@) is None,
{
    proof {
        reveal_strlit("json");
        reveal_strlit("yaml");
        reveal_strlit("toml");
        assert(seq!['j', 's', 'o', 'n'] =~= "json"@);
        assert(seq!['y', 'a', 'm', 'l'] =~= "yaml"@);
        assert(seq!['t', 'o', 'm', 'l'] =~= "toml"@);
    }
    let n = input_path.unicode_len();
    if n == 0 {
        return None;
    }
    let mut j: usize = n - 1;
    while input_path.get_char(j) == '/'
        invariant
            0 <= j < input_path@.len(),
            spec_trim_end(input_path@, input_path@.len() - 1) == spec_trim_end(
                input_path@,
                j as int,
            ),
        decreases j,
    {
        if j == 0 {
            proof {
                assert(spec_trim_end(input_path@, -1) == 0);
                assert(spec_ext_dot(input_path@, -1) is None);
            }
            return None;
        }
        j = j - 1;
    }
    let end = j + 1;
    assert(spec_trim_end(input_path@, input_path@.len() - 1) == end);
    loop
        invariant
            0 <= j < end,
            spec_ext_dot(input_path@, end - 1) == spec_ext_dot(input_path@, j as int),
        decreases j,
    {
        let c = input_path.get_char(j);
        if c == '/' {
            return None;
        }
        if c == '.' {
            if j == 0 || input_path.get_char(j - 1) == '/' {
                return None;
            }
            if suffix_is(input_path, j, end, 'j', 's', 'o', 'n') {
                return Some(String::from_str("json"));
            }
            if suffix_is(input_path, j, end, 'y', 'a', 'm', 'l') {
                return Some(String::from_str("yaml"));
            }
            if suffix_is(input_path, j, end, 't', 'o', 'm', 'l') {
                return Some(String::from_str("toml"));
            }
            return None;
        }
        if j == 0 {
            proof {
                assert(spec_ext_dot(input_path@, -1) is None);
            }
            return None;
        }
        j = j - 1;
    }
}

} // verus!
