use vstd::prelude::*;
use vstd::string::*;

verus! {

/// A tile name may not hold `_`, `[` or `]`.
pub open spec fn legal_name(n: Seq<char>) -> bool {
    forall|i: int| 0 <= i < n.len() ==> #[trigger] n[i] != '_' && n[i] != '[' && n[i] != ']'
}

/// What the rename table says of `stem`: the target of its last entry for
/// that stem, if any.
pub open spec fn rename_of(renames: Seq<(String, String)>, stem: Seq<char>) -> Option<Seq<char>>
    decreases renames.len(),
{
    if renames.len() == 0 {
        None
    } else if renames.last().0@ == stem {
        Some(renames.last().1@)
    } else {
        rename_of(renames.drop_last(), stem)
    }
}

/// The tile name a file stem stands for, or `None` where the rename table
/// maps it to the empty string, meaning the file is skipped.
pub open spec fn normalized(renames: Seq<(String, String)>, stem: Seq<char>) -> Option<
    Seq<char>,
> {
    match rename_of(renames, stem) {
        Some(n) => if n.len() == 0 {
            None
        } else {
            Some(n)
        },
        None => Some(stem),
    }
}

/// Why a scanned file cannot become a tile.
#[derive(Clone, Debug, PartialEq, Eq)]
pub enum TileError {
    /// The name, after renaming, holds `_`, `[` or `]`.
    IllegalName(String),
}

/// Whether `n` is a legal tile name.
pub fn is_legal_name(n: &str) -> (r: bool)
    ensures
        r == legal_name(n@),
{
    let len = n.unicode_len();
    let mut i: usize = 0;
    while i < len
        invariant
            i <= len,
            len == n@.len(),
            forall|k: int| 0 <= k < i ==> #[trigger] n@[k] != '_' && n@[k] != '[' && n@[k] != ']',
        decreases len - i,
    {
        let c = n.get_char(i);
        if c == '_' || c == '[' || c == ']' {
            return false;
        }
        i = i + 1;
    }
    true
}

/// The target that the rename table gives `stem`, searched from the last
/// entry back.
pub fn find_rename(renames: &Vec<(String, String)>, stem: &String) -> (r: Option<String>)
    ensures
        r is None <==> rename_of(renames@, stem@) is None,
        r matches Some(t) ==> rename_of(renames@, stem@) == Some(t@),
{
    let mut i: usize = renames.len();
    assert(renames@.subrange(0, i as int) =~= renames@);
    while i > 0
        invariant
            i <= renames@.len(),
            rename_of(renames@, stem@) == rename_of(renames@.subrange(0, i as int), stem@),
        decreases i,
    {
        let ghost prefix = renames@.subrange(0, i as int);
        assert(prefix.drop_last() =~= renames@.subrange(0, i - 1));
        if renames[i - 1].0 == *stem {
            return Some(renames[i - 1].1.clone());
        }
        i = i - 1;
    }
    assert(renames@.subrange(0, 0).len() == 0);
    None
}

/// The tile name for file stem `stem`: `Ok(None)` for a skipped file, the
/// name where it is legal, and an error naming it where it is not.
pub fn normalize(renames: &Vec<(String, String)>, stem: &str) -> (r: Result<Option<String>, TileError>)
    ensures
        normalized(renames@, stem@) is None ==> r == Ok::<Option<String>, TileError>(None),
        normalized(renames@, stem@) matches Some(n) ==> {
            if legal_name(n) {
                r matches Ok(Some(s)) && s@ == n
            } else {
                r matches Err(TileError::IllegalName(s)) && s@ == n
            }
        },
{
    let key = stem.to_owned();
    let name = match find_rename(renames, &key) {
        Some(target) => {
            if target.as_str().unicode_len() == 0 {
                return Ok(None);
            }
            target
        },
        None => key,
    };
    if is_legal_name(name.as_str()) {
        Ok(Some(name))
    } else {
        Err(TileError::IllegalName(name))
    }
}

/// A line with one `\r` dropped from its end, if it ends in one.
pub open spec fn strip_cr(l: Seq<char>) -> Seq<char> {
    if l.len() > 0 && l.last() == '\r' {
        l.drop_last()
    } else {
        l
    }
}

/// The lines of `s` from the line that starts at `start`, scanning on from
/// `i`: a line ends at `\n` (a `\r` just before it is dropped), and a last
/// line without `\n` counts unless it is empty.
pub open spec fn lines_from(s: Seq<char>, start: int, i: int) -> Seq<Seq<char>>
    decreases s.len() - i,
{
    if i >= s.len() {
        if start < s.len() {
            seq![s.subrange(start, s.len() as int)]
        } else {
            seq![]
        }
    } else if s[i] == '\n' {
        seq![strip_cr(s.subrange(start, i))] + lines_from(s, i + 1, i + 1)
    } else {
        lines_from(s, start, i + 1)
    }
}

/// The lines of a text.
pub open spec fn text_lines(s: Seq<char>) -> Seq<Seq<char>> {
    lines_from(s, 0, 0)
}

/// The index of the last `=` of `l` before index `i`.
pub open spec fn last_eq_before(l: Seq<char>, i: int) -> Option<int>
    decreases i,
{
    if i <= 0 {
        None
    } else if l[i - 1] == '=' {
        Some(i - 1)
    } else {
        last_eq_before(l, i - 1)
    }
}

/// A rename line `old=new`, cut at its last `=`.
pub open spec fn rename_line(l: Seq<char>) -> Option<(Seq<char>, Seq<char>)> {
    match last_eq_before(l, l.len() as int) {
        Some(k) => Some((l.subrange(0, k), l.subrange(k + 1, l.len() as int))),
        None => None,
    }
}

/// The rename entries of a list of lines, in order, skipping lines without `=`.
pub open spec fn rename_entries(lines: Seq<Seq<char>>) -> Seq<(Seq<char>, Seq<char>)>
    decreases lines.len(),
{
    if lines.len() == 0 {
        seq![]
    } else {
        match rename_line(lines.last()) {
            Some(e) => rename_entries(lines.drop_last()).push(e),
            None => rename_entries(lines.drop_last()),
        }
    }
}

/// The lines of a list that hold no `=`.
pub open spec fn invalid_lines(lines: Seq<Seq<char>>) -> Seq<Seq<char>>
    decreases lines.len(),
{
    if lines.len() == 0 {
        seq![]
    } else {
        match rename_line(lines.last()) {
            Some(e) => invalid_lines(lines.drop_last()),
            None => invalid_lines(lines.drop_last()).push(lines.last()),
        }
    }
}

/// Splits `line` at its last `=` into the stem and its new name.
pub fn parse_rename_line(line: &str) -> (r: Option<(String, String)>)
    ensures
        r is None <==> rename_line(line@) is None,
        r matches Some((a, b)) ==> rename_line(line@) == Some((a@, b@)),
{
    let len = line.unicode_len();
    let mut i: usize = len;
    while i > 0
        invariant
            i <= len,
            len == line@.len(),
            last_eq_before(line@, len as int) == last_eq_before(line@, i as int),
        decreases i,
    {
        if line.get_char(i - 1) == '=' {
            let a = line.substring_char(0, i - 1).to_owned();
            let b = line.substring_char(i, len).to_owned();
            return Some((a, b));
        }
        i = i - 1;
    }
    None
}

/// Reads a rename table, one `old=new` entry per line; an empty new name
/// marks a file to skip. Returns the entries in order and the lines that
/// hold no `=`.
pub fn load_renames(text: &str) -> (r: (Vec<(String, String)>, Vec<String>))
    requires
        text@.len() < usize::MAX,
    ensures
        r.0@.map_values(|e: (String, String)| (e.0@, e.1@)) == rename_entries(text_lines(text@)),
        r.1@.map_values(|l: String| l@) == invalid_lines(text_lines(text@)),
{
    let ghost s = text@;
    let len = text.unicode_len();
    let mut entries: Vec<(String, String)> = Vec::new();
    let mut invalid: Vec<String> = Vec::new();
    let ghost mut done: Seq<Seq<char>> = seq![];
    let mut start: usize = 0;
    let mut i: usize = 0;
    assert(done + text_lines(s) =~= text_lines(s));
    while i <= len
        invariant
            len == s.len(),
            len < usize::MAX,
            s == text@,
            start <= i,
            i <= len + 1,
            i == len + 1 ==> done == text_lines(s),
            i <= len ==> done + lines_from(s, start as int, i as int) == text_lines(s),
            entries@.map_values(|e: (String, String)| (e.0@, e.1@)) == rename_entries(done),
            invalid@.map_values(|l: String| l@) == invalid_lines(done),
        decreases len + 1 - i,
    {
        let at_end = i == len;
        if at_end && start == len {
            proof {
                assert(done + lines_from(s, start as int, i as int) =~= done);
            }
        } else if at_end || text.get_char(i) == '\n' {
            let mut end = i;
            if !at_end && end > start && text.get_char(end - 1) == '\r' {
                end = end - 1;
            }
            let line = text.substring_char(start, end);
            let ghost l = line@;
            proof {
                if at_end {
                    assert(l == s.subrange(start as int, s.len() as int));
                } else {
                    assert(l == strip_cr(s.subrange(start as int, i as int)));
                }
            }
            let ghost before_e = entries@;
            let ghost before_i = invalid@;
            match parse_rename_line(line) {
                Some(e) => {
                    entries.push(e);
                    proof {
                        assert(entries@.map_values(|e: (String, String)| (e.0@, e.1@))
                            =~= before_e.map_values(|e: (String, String)| (e.0@, e.1@)).push((e.0@, e.1@)));
                    }
                },
                None => {
                    invalid.push(line.to_owned());
                    proof {
                        assert(invalid@.map_values(|l: String| l@)
                            =~= before_i.map_values(|l: String| l@).push(l));
                    }
                },
            }
            proof {
                let nd = done.push(l);
                assert(nd.drop_last() =~= done);
                assert(nd.last() == l);
                if at_end {
                    assert(lines_from(s, start as int, i as int) == seq![l]);
                    assert(nd =~= done + seq![l]);
                } else {
                    assert(nd + lines_from(s, i + 1, i + 1) =~= done + (seq![l] + lines_from(s, i + 1, i + 1)));
                }
                done = nd;
            }
            start = i + 1;
        }
        i = i + 1;
    }
    (entries, invalid)
}

} // verus!
