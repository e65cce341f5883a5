//! The parts of a path that is written with `/` between its components.

use vstd::prelude::*;

use crate::model::text_of;
use crate::text::{
    chars_of, pieces, push_text, same_chars, slice_chars, split_pieces, string_of, texts,
};

verus! {

/// The last component that is a name. Empty components and `.` do not count, and
/// there is no name behind `..`.
pub open spec fn last_name(parts: Seq<Seq<char>>) -> Option<Seq<char>>
    decreases parts.len(),
{
    if parts.len() == 0 {
        None
    } else if parts.last().len() == 0 || parts.last() == "."@ {
        last_name(parts.drop_last())
    } else if parts.last() == ".."@ {
        None
    } else {
        Some(parts.last())
    }
}

/// The name of the file at a path.
pub open spec fn file_name_of(path: Seq<char>) -> Option<Seq<char>> {
    last_name(pieces(path, '/'))
}

/// The position of the last point in `s`.
pub open spec fn last_point(s: Seq<char>) -> Option<int>
    decreases s.len(),
{
    if s.len() == 0 {
        None
    } else if s.last() == '.' {
        Some(s.len() - 1)
    } else {
        last_point(s.drop_last())
    }
}

/// The name without its extension. A point at the start begins no extension.
pub open spec fn stem_of(name: Seq<char>) -> Seq<char> {
    match last_point(name) {
        Some(at) => if at == 0 {
            name
        } else {
            name.take(at)
        },
        None => name,
    }
}

/// What stands behind the last point of a name.
pub open spec fn extension_of(name: Seq<char>) -> Option<Seq<char>> {
    match last_point(name) {
        Some(at) => if at == 0 {
            None
        } else {
            Some(name.skip(at + 1))
        },
        None => None,
    }
}

/// The characters of an optional name.
pub open spec fn chars_view(name: Option<Vec<char>>) -> Option<Seq<char>> {
    match name {
        Some(name) => Some(name@),
        None => None,
    }
}

/// The characters of the name of the file at a path.
pub fn name_chars(path: &str) -> (r: Option<Vec<char>>)
    ensures
        chars_view(r) == file_name_of(path@),
{
    let parts = split_pieces(&chars_of(path), '/');
    let mut n: usize = parts.len();
    assert(texts(parts@).take(n as int) =~= texts(parts@));
    while n > 0
        invariant
            n <= parts.len(),
            texts(parts@) == pieces(path@, '/'),
            last_name(pieces(path@, '/')) == last_name(texts(parts@).take(n as int)),
        decreases n,
    {
        let part = &parts[n - 1];
        proof {
            let p = texts(parts@).take(n as int);
            assert(p.last() == part@);
            assert(p.drop_last() =~= texts(parts@).take(n - 1));
        }
        if part.len() > 0 && !same_chars(part, &chars_of(".")) {
            if same_chars(part, &chars_of("..")) {
                return None;
            }
            let name = slice_chars(part, 0, part.len());
            assert(name@ =~= part@);
            return Some(name);
        }
        n -= 1;
    }
    None
}

/// The name of the file at a path.
pub fn file_name(path: &str) -> (r: Option<String>)
    ensures
        text_of(r) == file_name_of(path@),
{
    match name_chars(path) {
        Some(name) => Some(string_of(&name)),
        None => None,
    }
}

fn find_last_point(v: &Vec<char>) -> (r: Option<usize>)
    ensures
        match r {
            Some(at) => last_point(v@) == Some(at as int) && at < v@.len(),
            None => last_point(v@) is None,
        },
{
    let mut n: usize = v.len();
    assert(v@.take(n as int) =~= v@);
    while n > 0
        invariant
            n <= v.len(),
            last_point(v@) == last_point(v@.take(n as int)),
        decreases n,
    {
        assert(v@.take(n as int).drop_last() =~= v@.take(n - 1));
        if v[n - 1] == '.' {
            return Some(n - 1);
        }
        n -= 1;
    }
    None
}

/// The name without its extension.
pub fn stem(name: &Vec<char>) -> (r: Vec<char>)
    ensures
        r@ == stem_of(name@),
{
    let to: usize = match find_last_point(name) {
        Some(at) => if at == 0 {
            name.len()
        } else {
            at
        },
        None => name.len(),
    };
    let r = slice_chars(name, 0, to);
    assert(r@ =~= stem_of(name@));
    r
}

/// What stands behind the last point of a name.
pub fn extension(name: &Vec<char>) -> (r: Option<Vec<char>>)
    ensures
        chars_view(r) == extension_of(name@),
{
    match find_last_point(name) {
        Some(at) => if at == 0 {
            None
        } else {
            let length: usize = name.len();
            let rest = slice_chars(name, at + 1, length);
            assert(rest@ =~= name@.skip(at + 1));
            Some(rest)
        },
        None => None,
    }
}

/// A name below a folder.
pub open spec fn joined_path(dir: Seq<char>, name: Seq<char>) -> Seq<char> {
    if dir.len() == 0 {
        name
    } else if dir.last() == '/' {
        dir + name
    } else {
        dir + "/"@ + name
    }
}

/// A name below a folder.
pub fn join(dir: &str, name: &str) -> (r: String)
    ensures
        r@ == joined_path(dir@, name@),
{
    let mut v = chars_of(dir);
    if v.len() > 0 && v[v.len() - 1] != '/' {
        push_text(&mut v, "/");
    }
    push_text(&mut v, name);
    assert(v@ =~= joined_path(dir@, name@));
    string_of(&v)
}

/// The folder next to the program that holds settings and data, where the program
/// is installed portably: there is a marker file or a data folder beside it.
pub fn portable_base(exe_dir: Option<String>, marker_is_file: bool, data_is_dir: bool) -> (r: Option<
    String,
>)
    ensures
        text_of(r) == if marker_is_file || data_is_dir {
            text_of(exe_dir)
        } else {
            None
        },
{
    if marker_is_file || data_is_dir {
        exe_dir
    } else {
        None
    }
}

/// The folder for reports, pending extractions and trades: below the portable
/// folder, else the user's data folder, else the current one.
pub fn data_dir(portable: &Option<String>, user_data: &Option<String>) -> (r: String)
    ensures
        r@ == match *portable {
            Some(base) => joined_path(base@, "data"@),
            None => match *user_data {
                Some(dir) => dir@,
                None => "."@,
            },
        },
{
    match portable {
        Some(base) => join(base.as_str(), "data"),
        None => match user_data {
            Some(dir) => dir.clone(),
            None => ".".to_owned(),
        },
    }
}

/// The file of the settings: below the portable folder, else the default one.
pub fn config_path(portable: &Option<String>, default_path: &str) -> (r: String)
    ensures
        r@ == match *portable {
            Some(base) => joined_path(joined_path(base@, "config"@), "config.json"@),
            None => default_path@,
        },
{
    match portable {
        Some(base) => {
            let dir = join(base.as_str(), "config");
            join(dir.as_str(), "config.json")
        },
        None => default_path.to_owned(),
    }
}

/// The first of the paths that exists, by its flag; else the last resort.
pub open spec fn first_of(candidates: Seq<(String, bool)>, otherwise: Seq<char>) -> Seq<char>
    decreases candidates.len(),
{
    if candidates.len() == 0 {
        otherwise
    } else if candidates[0].1 {
        candidates[0].0@
    } else {
        first_of(candidates.drop_first(), otherwise)
    }
}

/// Picks the first of the paths that exists.
pub fn first_existing(candidates: &Vec<(String, bool)>, otherwise: &str) -> (r: String)
    ensures
        r@ == first_of(candidates@, otherwise@),
{
    let mut i: usize = 0;
    assert(candidates@.skip(0) =~= candidates@);
    while i < candidates.len()
        invariant
            i <= candidates.len(),
            first_of(candidates@, otherwise@) == first_of(candidates@.skip(i as int), otherwise@),
        decreases candidates.len() - i,
    {
        assert(candidates@.skip(i as int).drop_first() =~= candidates@.skip(i + 1));
        if candidates[i].1 {
            return candidates[i].0.clone();
        }
        i += 1;
    }
    otherwise.to_owned()
}

proof fn lemma_last_point(s: Seq<char>)
    ensures
        match last_point(s) {
            Some(at) => 0 <= at < s.len() && s[at] == '.' && forall|i: int|
                at < i < s.len() ==> #[trigger] s[i] != '.',
            None => forall|i: int| 0 <= i < s.len() ==> #[trigger] s[i] != '.',
        },
    decreases s.len(),
{
    if s.len() > 0 {
        lemma_last_point(s.drop_last());
        assert(forall|i: int| 0 <= i < s.len() - 1 ==> #[trigger] s[i] == s.drop_last()[i]);
    }
}

/// A name is its stem, a point and its extension, in which there is no point; or it is all
/// stem, where it has no point but at its start.
pub proof fn law_name_is_stem_and_extension(name: Seq<char>)
    ensures
        match extension_of(name) {
            Some(extension) => {
                &&& name == stem_of(name) + seq!['.'] + extension
                &&& stem_of(name).len() > 0
                &&& forall|i: int| 0 <= i < extension.len() ==> #[trigger] extension[i] != '.'
            },
            None => stem_of(name) == name && forall|i: int|
                0 < i < name.len() ==> #[trigger] name[i] != '.',
        },
{
    lemma_last_point(name);
    if let Some(at) = last_point(name) {
        if at > 0 {
            assert(name =~= name.take(at) + seq!['.'] + name.skip(at + 1));
        }
    }
}

proof fn lemma_pieces_behind(a: Seq<char>, b: Seq<char>, c: char)
    requires
        forall|i: int| 0 <= i < b.len() ==> #[trigger] b[i] != c,
    ensures
        pieces(a + seq![c] + b, c) == pieces(a, c).push(b),
    decreases b.len(),
{
    let s = a + seq![c] + b;
    if b.len() == 0 {
        assert(s.drop_last() =~= a);
        assert(s.last() == c);
        assert(b =~= Seq::empty());
    } else {
        let shorter = b.drop_last();
        assert forall|i: int| 0 <= i < shorter.len() implies #[trigger] shorter[i] != c by {
            assert(b[i] != c);
        }
        lemma_pieces_behind(a, shorter, c);
        assert(s.drop_last() =~= a + seq![c] + shorter);
        assert(b[b.len() - 1] != c);
        assert(shorter.push(b.last()) =~= b);
        assert(pieces(a, c).push(shorter).drop_last() =~= pieces(a, c));
    }
}

/// The name of a file is what stands behind the last slash of its path.
pub proof fn law_file_name_is_behind_the_last_slash(dir: Seq<char>, name: Seq<char>)
    requires
        name.len() > 0,
        name != "."@,
        name != ".."@,
        forall|i: int| 0 <= i < name.len() ==> #[trigger] name[i] != '/',
    ensures
        file_name_of(dir + seq!['/'] + name) == Some(name),
        dir.len() > 0 ==> file_name_of(joined_path(dir, name)) == Some(name),
{
    lemma_pieces_behind(dir, name, '/');
    reveal_strlit("/");
    assert("/"@ =~= seq!['/']);
    if dir.len() > 0 && dir.last() == '/' {
        assert(dir + name =~= dir.drop_last() + seq!['/'] + name);
        lemma_pieces_behind(dir.drop_last(), name, '/');
    }
}

} // verus!
