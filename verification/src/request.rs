//! Request-line and header-line parsing, and the header map.
//!
//! A request line must consist of exactly three tokens separated by
//! single spaces.  A header line must split on the separator `": "` into
//! exactly two parts, which are stored trimmed.  Header names are kept
//! exactly as received (no case folding), and a later header with the
//! same name overwrites the earlier one.

use vstd::prelude::*;
use crate::text::trim_spec;
use crate::text::trim_str;
use crate::text::str_eq;

verus! {

// ---------------------------------------------------------------------------
// Splitting on single spaces
// ---------------------------------------------------------------------------
/// The tokens of `s` split on every single space, as `str::split(" ")`
/// yields them: `n` spaces give `n + 1` tokens, empty tokens included.
pub open spec fn split_sp(s: Seq<char>) -> Seq<Seq<char>>
    decreases s.len(),
{
    if s.len() == 0 {
        seq![Seq::<char>::empty()]
    } else if s[0] == ' ' {
        seq![Seq::<char>::empty()] + split_sp(s.drop_first())
    } else {
        let r = split_sp(s.drop_first());
        seq![seq![s[0]] + r[0]] + r.drop_first()
    }
}

proof fn lemma_split_sp_len(s: Seq<char>)
    ensures
        split_sp(s).len() >= 1,
    decreases s.len(),
{
    if s.len() == 0 {
    } else {
        lemma_split_sp_len(s.drop_first());
    }
}

proof fn lemma_split_sp_no_space(s: Seq<char>)
    requires
        forall|j: int| 0 <= j < s.len() ==> s[j] != ' ',
    ensures
        split_sp(s) =~~= seq![s],
    decreases s.len(),
{
    if s.len() == 0 {
    } else {
        lemma_split_sp_no_space(s.drop_first());
        assert(seq![s[0]] + s.drop_first() =~= s);
    }
}

proof fn lemma_split_sp_first(s: Seq<char>, p: int)
    requires
        0 <= p < s.len(),
        s[p] == ' ',
        forall|j: int| 0 <= j < p ==> s[j] != ' ',
    ensures
        split_sp(s) =~~= seq![s.take(p)] + split_sp(s.skip(p + 1)),
    decreases p,
{
    if p == 0 {
        assert(s.take(0) =~= Seq::<char>::empty());
        assert(s.drop_first() =~= s.skip(1));
    } else {
        lemma_split_sp_first(s.drop_first(), p - 1);
        lemma_split_sp_len(s.drop_first().skip(p));
        assert(seq![s[0]] + s.drop_first().take(p - 1) =~= s.take(p));
        assert(s.drop_first().skip(p) =~= s.skip(p + 1));
        assert((seq![s.drop_first().take(p - 1)] + split_sp(s.skip(p + 1))).drop_first() =~~=
            split_sp(s.skip(p + 1)));
    }
}

/// Position of the first space at or after `from`, if any.
fn find_space(s: &str, from: usize, n: usize) -> (r: Option<usize>)
    requires
        n == s@.len(),
        from <= n,
    ensures
        r matches Some(p) ==> from <= p < n && s@[p as int] == ' ' && (forall|j: int|
            from <= j < p ==> s@[j] != ' '),
        r is None ==> forall|j: int| from <= j < n ==> s@[j] != ' ',
{
    let mut i = from;
    while i < n
        invariant
            n == s@.len(),
            from <= i <= n,
            forall|j: int| from <= j < i ==> s@[j] != ' ',
        decreases n - i,
    {
        if s.get_char(i) == ' ' {
            return Some(i);
        }
        i += 1;
    }
    None
}

/// What `parse_request_line` returns: the method and raw path when the
/// line has exactly three space-separated tokens, nothing otherwise.
pub open spec fn parse_request_line_spec(s: Seq<char>) -> Option<(Seq<char>, Seq<char>)> {
    if split_sp(s).len() == 3 {
        Some((split_sp(s)[0], split_sp(s)[1]))
    } else {
        None
    }
}

/// Parses a request line into its method and raw path.  The line must
/// hold exactly three tokens separated by single spaces (method, path,
/// version); any other token count fails.  Token contents are not
/// validated.
pub fn parse_request_line(line: &str) -> (r: Option<(String, String)>)
    ensures
        r is Some <==> parse_request_line_spec(line@) is Some,
        r matches Some(mp) ==> parse_request_line_spec(line@) == Some((mp.0@, mp.1@)),
{
    let n = line.unicode_len();
    let p1 = match find_space(line, 0, n) {
        Some(p) => p,
        None => {
            proof {
                lemma_split_sp_no_space(line@);
            }
            return None;
        },
    };
    proof {
        lemma_split_sp_first(line@, p1 as int);
    }
    let p2 = match find_space(line, p1 + 1, n) {
        Some(p) => p,
        None => {
            proof {
                assert(forall|j: int|
                    0 <= j < line@.skip(p1 + 1).len() ==> #[trigger] line@.skip(p1 + 1)[j] != ' ');
                lemma_split_sp_no_space(line@.skip(p1 + 1));
            }
            return None;
        },
    };
    proof {
        assert(line@.skip(p1 + 1)[p2 - p1 - 1] == ' ');
        assert(forall|j: int| 0 <= j < p2 - p1 - 1 ==> #[trigger] line@.skip(p1 + 1)[j] != ' ');
        lemma_split_sp_first(line@.skip(p1 + 1), p2 - p1 - 1);
        assert(line@.skip(p1 + 1).skip(p2 - p1) =~= line@.skip(p2 + 1));
    }
    match find_space(line, p2 + 1, n) {
        Some(p3) => {
            proof {
                assert(line@.skip(p2 + 1)[p3 - p2 - 1] == ' ');
                assert(forall|j: int| 0 <= j < p3 - p2 - 1 ==> #[trigger] line@.skip(p2 + 1)[j] != ' ');
                lemma_split_sp_first(line@.skip(p2 + 1), p3 - p2 - 1);
                lemma_split_sp_len(line@.skip(p3 + 1));
                assert(split_sp(line@).len() >= 4);
            }
            return None;
        },
        None => {
            proof {
                assert(forall|j: int|
                    0 <= j < line@.skip(p2 + 1).len() ==> #[trigger] line@.skip(p2 + 1)[j] != ' ');
                lemma_split_sp_no_space(line@.skip(p2 + 1));
                assert(split_sp(line@).len() == 3);
                assert(split_sp(line@)[0] == line@.take(p1 as int));
                assert(split_sp(line@)[1] == line@.skip(p1 + 1).take(p2 - p1 - 1));
                assert(line@.skip(p1 + 1).take(p2 - p1 - 1) =~= line@.subrange(p1 + 1, p2 as int));
                assert(line@.take(p1 as int) =~= line@.subrange(0, p1 as int));
            }
            let method = line.substring_char(0, p1).to_owned();
            let path = line.substring_char(p1 + 1, p2).to_owned();
            Some((method, path))
        },
    }
}

// ---------------------------------------------------------------------------
// Splitting on the header separator `": "`
// ---------------------------------------------------------------------------
/// The parts of `s` split on each non-overlapping, leftmost occurrence
/// of `": "`, as `str::split(": ")` yields them.
pub open spec fn split_hdr(s: Seq<char>) -> Seq<Seq<char>>
    decreases s.len(),
{
    if s.len() < 2 {
        seq![s]
    } else if s[0] == ':' && s[1] == ' ' {
        seq![Seq::<char>::empty()] + split_hdr(s.skip(2))
    } else {
        let r = split_hdr(s.drop_first());
        seq![seq![s[0]] + r[0]] + r.drop_first()
    }
}

proof fn lemma_split_hdr_len(s: Seq<char>)
    ensures
        split_hdr(s).len() >= 1,
    decreases s.len(),
{
    if s.len() < 2 {
    } else if s[0] == ':' && s[1] == ' ' {
        lemma_split_hdr_len(s.skip(2));
    } else {
        lemma_split_hdr_len(s.drop_first());
    }
}

proof fn lemma_split_hdr_no_sep(s: Seq<char>)
    requires
        forall|j: int| 0 <= j < s.len() - 1 ==> !(#[trigger] s[j] == ':' && s[j + 1] == ' '),
    ensures
        split_hdr(s) =~~= seq![s],
    decreases s.len(),
{
    if s.len() < 2 {
    } else {
        lemma_split_hdr_no_sep(s.drop_first());
        assert(seq![s[0]] + s.drop_first() =~= s);
    }
}

proof fn lemma_split_hdr_first(s: Seq<char>, p: int)
    requires
        0 <= p < s.len() - 1,
        s[p] == ':' && s[p + 1] == ' ',
        forall|j: int| 0 <= j < p ==> !(#[trigger] s[j] == ':' && s[j + 1] == ' '),
    ensures
        split_hdr(s) =~~= seq![s.take(p)] + split_hdr(s.skip(p + 2)),
    decreases p,
{
    if p == 0 {
        assert(s.take(0) =~= Seq::<char>::empty());
    } else {
        lemma_split_hdr_first(s.drop_first(), p - 1);
        lemma_split_hdr_len(s.drop_first().skip(p + 1));
        assert(seq![s[0]] + s.drop_first().take(p - 1) =~= s.take(p));
        assert(s.drop_first().skip(p + 1) =~= s.skip(p + 2));
        assert((seq![s.drop_first().take(p - 1)] + split_hdr(s.skip(p + 2))).drop_first() =~~=
            split_hdr(s.skip(p + 2)));
    }
}

/// Position of the first `": "` at or after `from`, if any.
fn find_hdr_sep(s: &str, from: usize, n: usize) -> (r: Option<usize>)
    requires
        n == s@.len(),
        from <= n,
    ensures
        r matches Some(p) ==> from <= p && p + 1 < n && s@[p as int] == ':' && s@[p + 1] == ' ' && (
        forall|j: int| from <= j < p ==> !(#[trigger] s@[j] == ':' && s@[j + 1] == ' ')),
        r is None ==> forall|j: int| from <= j < n - 1 ==> !(#[trigger] s@[j] == ':' && s@[j + 1] == ' '),
{
    let mut i = from;
    while i < n && i + 1 < n
        invariant
            n == s@.len(),
            from <= i,
            i <= n,
            forall|j: int| from <= j < i ==> !(#[trigger] s@[j] == ':' && s@[j + 1] == ' '),
        decreases n - i,
    {
        if s.get_char(i) == ':' && s.get_char(i + 1) == ' ' {
            return Some(i);
        }
        i += 1;
    }
    None
}

/// What `parse_header_line` returns: the trimmed name and value when the
/// line splits on `": "` into exactly two parts, nothing otherwise.
pub open spec fn parse_header_line_spec(s: Seq<char>) -> Option<(Seq<char>, Seq<char>)> {
    if split_hdr(s).len() == 2 {
        Some((trim_spec(split_hdr(s)[0]), trim_spec(split_hdr(s)[1])))
    } else {
        None
    }
}

/// Parses one header line.  The line must split on the literal
/// separator `": "` into exactly two parts; both parts are trimmed of
/// surrounding whitespace.
pub fn parse_header_line(line: &str) -> (r: Option<(String, String)>)
    ensures
        r is Some <==> parse_header_line_spec(line@) is Some,
        r matches Some(kv) ==> parse_header_line_spec(line@) == Some((kv.0@, kv.1@)),
{
    let n = line.unicode_len();
    let p = match find_hdr_sep(line, 0, n) {
        Some(p) => p,
        None => {
            proof {
                lemma_split_hdr_no_sep(line@);
            }
            return None;
        },
    };
    proof {
        lemma_split_hdr_first(line@, p as int);
    }
    match find_hdr_sep(line, p + 2, n) {
        Some(q) => {
            proof {
                assert(line@.skip(p + 2)[q - p - 2] == ':' && line@.skip(p + 2)[q - p - 1] == ' ');
                assert(forall|j: int|
                    0 <= j < q - p - 2 ==> !(#[trigger] line@.skip(p + 2)[j] == ':' && line@.skip(
                        p + 2,
                    )[j + 1] == ' '));
                lemma_split_hdr_first(line@.skip(p + 2), q - p - 2);
                lemma_split_hdr_len(line@.skip(p + 2).skip(q - p));
                assert(split_hdr(line@).len() >= 3);
            }
            None
        },
        None => {
            proof {
                assert(forall|j: int|
                    0 <= j < line@.skip(p + 2).len() - 1 ==> !(#[trigger] line@.skip(p + 2)[j] == ':'
                        && line@.skip(p + 2)[j + 1] == ' '));
                lemma_split_hdr_no_sep(line@.skip(p + 2));
                assert(split_hdr(line@).len() == 2);
                assert(split_hdr(line@)[0] == line@.take(p as int));
                assert(split_hdr(line@)[1] == line@.skip(p + 2));
                assert(line@.take(p as int) =~= line@.subrange(0, p as int));
                assert(line@.skip(p + 2) =~= line@.subrange(p + 2, n as int));
            }
            let name = trim_str(line.substring_char(0, p));
            let value = trim_str(line.substring_char(p + 2, n));
            Some((name, value))
        },
    }
}

// ---------------------------------------------------------------------------
// The header map
// ---------------------------------------------------------------------------
/// The mapping described by a sequence of header entries, a later entry
/// with the same name overwriting an earlier one.
pub open spec fn map_of(es: Seq<(String, String)>) -> Map<Seq<char>, Seq<char>>
    decreases es.len(),
{
    if es.len() == 0 {
        Map::empty()
    } else {
        map_of(es.drop_last()).insert(es.last().0@, es.last().1@)
    }
}

/// The headers of one request: trimmed names mapped to trimmed values,
/// names kept exactly as received, last write winning.
pub struct HeaderMap {
    entries: Vec<(String, String)>,
}

impl View for HeaderMap {
    type V = Map<Seq<char>, Seq<char>>;

    closed spec fn view(&self) -> Map<Seq<char>, Seq<char>> {
        map_of(self.entries@)
    }
}

proof fn lemma_map_of_found(es: Seq<(String, String)>, k: Seq<char>, i: int)
    requires
        0 <= i < es.len(),
        es[i].0@ == k,
        forall|j: int| i < j < es.len() ==> es[j].0@ != k,
    ensures
        map_of(es).contains_key(k),
        map_of(es)[k] == es[i].1@,
    decreases es.len(),
{
    if i == es.len() - 1 {
    } else {
        lemma_map_of_found(es.drop_last(), k, i);
    }
}

proof fn lemma_map_of_absent(es: Seq<(String, String)>, k: Seq<char>)
    requires
        forall|j: int| 0 <= j < es.len() ==> es[j].0@ != k,
    ensures
        !map_of(es).contains_key(k),
    decreases es.len(),
{
    if es.len() == 0 {
    } else {
        lemma_map_of_absent(es.drop_last(), k);
    }
}

impl HeaderMap {
    /// An empty header map.
    pub fn new() -> (r: HeaderMap)
        ensures
            r@ == Map::<Seq<char>, Seq<char>>::empty(),
    {
        HeaderMap { entries: Vec::new() }
    }

    /// Records a header, overwriting any earlier value under `name`.
    pub fn insert(&mut self, name: String, value: String)
        ensures
            final(self)@ == old(self)@.insert(name@, value@),
    {
        let ghost es0 = self.entries@;
        self.entries.push((name, value));
        proof {
            assert(self.entries@.drop_last() =~= es0);
        }
    }

    /// Looks a header up by its exact (case-sensitive) name.
    pub fn get(&self, name: &str) -> (r: Option<&String>)
        ensures
            r is Some <==> self@.contains_key(name@),
            r matches Some(v) ==> self@[name@] == v@,
    {
        let n = self.entries.len();
        let mut i = n;
        while i > 0
            invariant
                n == self.entries.len(),
                0 <= i <= n,
                forall|j: int| i <= j < n ==> self.entries@[j].0@ != name@,
            decreases i,
        {
            i -= 1;
            if str_eq(self.entries[i].0.as_str(), name) {
                proof {
                    lemma_map_of_found(self.entries@, name@, i as int);
                }
                return Some(&self.entries[i].1);
            }
        }
        proof {
            lemma_map_of_absent(self.entries@, name@);
        }
        None
    }
}

} // verus!
