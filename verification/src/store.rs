//! The shortcut store: an in-memory key-to-value mapping together with its
//! canonical text form, one `key = value` line per entry.
//!
//! The mapping is modelled as a sequence of `(key, value)` pairs of
//! character sequences.  Well-formed stores have pairwise distinct keys.
//! Adding an entry under a key that is already present is a no-op (first
//! write wins); removing an absent key is a successful no-op.

use vstd::prelude::*;

use crate::text::is_word_seq;
use crate::text::is_word_char;
use crate::text::valid_key;
use crate::text::str_eq;
use crate::text::is_valid_key;

verus! {

/// The kinds of failure the store and the expander can report.  Every
/// error is terminal for the current invocation; nothing is retried.
#[derive(Debug, PartialEq, Eq)]
pub enum StoreError {
    /// The backing file could not be read or written.
    IoError,
    /// A key failed the word-character pattern.
    InvalidKey,
    /// A bracketed token matched neither a store entry nor the built-in
    /// escape; carries the offending key.
    UnresolvedShortcut(String),
    /// A required input was absent.
    MissingArgument,
}

/// Some entry of `m` has key `k`.
pub open spec fn store_contains(m: Seq<(Seq<char>, Seq<char>)>, k: Seq<char>) -> bool {
    exists|i: int| 0 <= i < m.len() && #[trigger] m[i].0 == k
}

/// The value of the first entry of `m` whose key is `k`.
pub open spec fn spec_lookup(m: Seq<(Seq<char>, Seq<char>)>, k: Seq<char>) -> Seq<char>
    decreases m.len(),
{
    if m.len() == 0 {
        Seq::empty()
    } else if m[0].0 == k {
        m[0].1
    } else {
        spec_lookup(m.drop_first(), k)
    }
}

/// Keys are pairwise distinct.
pub open spec fn store_wf(m: Seq<(Seq<char>, Seq<char>)>) -> bool {
    forall|i: int, j: int| 0 <= i < j < m.len() ==> (#[trigger] m[i]).0 != (#[trigger] m[j]).0
}

/// `m` without every entry whose key is `k`; the order of the remaining
/// entries is kept.
pub open spec fn spec_remove(m: Seq<(Seq<char>, Seq<char>)>, k: Seq<char>) -> Seq<
    (Seq<char>, Seq<char>),
>
    decreases m.len(),
{
    if m.len() == 0 {
        Seq::empty()
    } else if m[0].0 == k {
        spec_remove(m.drop_first(), k)
    } else {
        seq![m[0]] + spec_remove(m.drop_first(), k)
    }
}

/// Add-if-absent: when `k` is already present the mapping is returned
/// unchanged, else the new entry is appended.
pub open spec fn spec_add(
    m: Seq<(Seq<char>, Seq<char>)>,
    k: Seq<char>,
    v: Seq<char>,
) -> Seq<(Seq<char>, Seq<char>)> {
    if store_contains(m, k) {
        m
    } else {
        m.push((k, v))
    }
}

/// Overwriting insert: any entry under `k` is dropped and the new entry is
/// appended, so the last write for a key wins.
pub open spec fn spec_put(
    m: Seq<(Seq<char>, Seq<char>)>,
    k: Seq<char>,
    v: Seq<char>,
) -> Seq<(Seq<char>, Seq<char>)> {
    spec_remove(m, k).push((k, v))
}

/// The in-memory shortcut mapping: a sequence of `(key, value)` entries.
pub struct StoreMap {
    pub entries: Vec<(String, String)>,
}

impl View for StoreMap {
    type V = Seq<(Seq<char>, Seq<char>)>;

    open spec fn view(&self) -> Seq<(Seq<char>, Seq<char>)> {
        self.entries.deep_view()
    }
}

impl StoreMap {
    /// The empty store.
    pub fn new() -> (r: StoreMap)
        ensures
            r@ == Seq::<(Seq<char>, Seq<char>)>::empty(),
            store_wf(r@),
    {
        let r = StoreMap { entries: Vec::new() };
        proof {
            assert(r@ =~= Seq::<(Seq<char>, Seq<char>)>::empty());
        }
        r
    }

    /// Looks `key` up, returning a copy of the stored value of its first
    /// entry, or `None` when no entry has that key.
    pub fn get(&self, key: &str) -> (r: Option<String>)
        ensures
            match r {
                Some(v) => store_contains(self@, key@) && v@ == spec_lookup(self@, key@),
                None => !store_contains(self@, key@),
            },
    {
        let n = self.entries.len();
        let mut i: usize = 0;
        proof {
            assert(self@.skip(0) =~= self@);
        }
        while i < n
            invariant
                0 <= i <= n,
                n == self.entries.len(),
                forall|j: int| 0 <= j < i ==> (#[trigger] self@[j]).0 != key@,
                spec_lookup(self@, key@) == spec_lookup(self@.skip(i as int), key@),
            decreases n - i,
        {
            proof {
                assert(self@.skip(i as int)[0] == self@[i as int]);
                assert(self@.skip(i as int).drop_first() =~= self@.skip(i as int + 1));
            }
            if str_eq(self.entries[i].0.as_str(), key) {
                let v = self.entries[i].1.clone();
                return Some(v);
            }
            i += 1;
        }
        proof {
            assert forall|j: int| 0 <= j < self@.len() implies (#[trigger] self@[j]).0
                != key@ by {}
        }
        None
    }

    /// Whether some entry has key `key`.
    pub fn contains_key(&self, key: &str) -> (r: bool)
        ensures
            r == store_contains(self@, key@),
    {
        self.get(key).is_some()
    }

    /// Drops every entry whose key is `key`; absent keys are a no-op.
    pub fn remove(&mut self, key: &str)
        ensures
            final(self)@ == spec_remove(old(self)@, key@),
    {
        let n = self.entries.len();
        let mut kept: Vec<(String, String)> = Vec::new();
        let mut i: usize = 0;
        proof {
            assert(kept.deep_view() =~= Seq::<(Seq<char>, Seq<char>)>::empty());
            assert(self@.skip(0) =~= self@);
        }
        while i < n
            invariant
                0 <= i <= n,
                n == self.entries.len(),
                kept.deep_view() + spec_remove(self@.skip(i as int), key@) == spec_remove(
                    self@,
                    key@,
                ),
            decreases n - i,
        {
            proof {
                assert(self@.skip(i as int)[0] == self@[i as int]);
                assert(self@.skip(i as int).drop_first() =~= self@.skip(i as int + 1));
            }
            let ghost prev = kept.deep_view();
            if !str_eq(self.entries[i].0.as_str(), key) {
                let k = self.entries[i].0.clone();
                let v = self.entries[i].1.clone();
                kept.push((k, v));
                proof {
                    assert(kept.deep_view() =~= prev + seq![self@[i as int]]);
                    assert(prev + (seq![self@[i as int]] + spec_remove(
                        self@.skip(i as int + 1),
                        key@,
                    )) =~= kept.deep_view() + spec_remove(self@.skip(i as int + 1), key@));
                }
            }
            i += 1;
        }
        proof {
            assert(spec_remove(self@.skip(n as int), key@) =~= Seq::<
                (Seq<char>, Seq<char>),
            >::empty());
            assert(kept.deep_view() + Seq::<(Seq<char>, Seq<char>)>::empty() =~= kept.deep_view());
        }
        self.entries = kept;
    }

    /// Overwriting insert: drops any entry under `key`, then appends the
    /// new entry.
    pub fn put(&mut self, key: String, value: String)
        ensures
            final(self)@ == spec_put(old(self)@, key@, value@),
    {
        self.remove(key.as_str());
        let ghost mid = self@;
        self.entries.push((key, value));
        proof {
            assert(self@ =~= mid.push((key@, value@)));
        }
    }

    /// Add-if-absent: when `key` is already present nothing changes and
    /// the entry keeps its first-written value.
    pub fn add(&mut self, key: String, value: String)
        ensures
            final(self)@ == spec_add(old(self)@, key@, value@),
    {
        if !self.contains_key(key.as_str()) {
            let ghost prev = self@;
            self.entries.push((key, value));
            proof {
                assert(self@ =~= prev.push((key@, value@)));
            }
        }
    }

    /// The number of entries.
    pub fn len(&self) -> (r: usize)
        ensures
            r == self@.len(),
    {
        self.entries.len()
    }
}

/// The separator that stands between a key and its value on a line.
pub open spec fn spec_sep() -> Seq<char> {
    seq![' ', '=', ' ']
}

/// The canonical text form of one entry: `key = value` and a newline.
pub open spec fn spec_entry_line(e: (Seq<char>, Seq<char>)) -> Seq<char> {
    e.0 + spec_sep() + e.1 + seq!['\n']
}

/// The canonical text form of a whole mapping: the entry lines in order.
pub open spec fn spec_serialize(m: Seq<(Seq<char>, Seq<char>)>) -> Seq<char>
    decreases m.len(),
{
    if m.len() == 0 {
        Seq::empty()
    } else {
        spec_entry_line(m[0]) + spec_serialize(m.drop_first())
    }
}

pub proof fn lemma_sep_literal()
    ensures
        " = "@ == spec_sep(),
{
    reveal_strlit(" = ");
    assert(" = "@ =~= spec_sep());
}

pub proof fn lemma_nl_literal()
    ensures
        "\n"@ == seq!['\n'],
{
    reveal_strlit("\n");
    assert("\n"@ =~= seq!['\n']);
}

/// Serializing one more entry appends one more line.
pub proof fn lemma_serialize_push(m: Seq<(Seq<char>, Seq<char>)>, e: (Seq<char>, Seq<char>))
    ensures
        spec_serialize(m.push(e)) == spec_serialize(m) + spec_entry_line(e),
    decreases m.len(),
{
    if m.len() == 0 {
        assert(m.push(e)[0] == e);
        assert(m.push(e).drop_first() =~= Seq::<(Seq<char>, Seq<char>)>::empty());
        assert(spec_serialize(m.push(e)) == spec_entry_line(e) + spec_serialize(
            Seq::<(Seq<char>, Seq<char>)>::empty(),
        ));
        assert(spec_serialize(m.push(e)) =~= spec_entry_line(e));
        assert(spec_serialize(m) + spec_entry_line(e) =~= spec_entry_line(e));
    } else {
        assert(m.push(e)[0] == m[0]);
        assert(m.push(e).drop_first() =~= m.drop_first().push(e));
        lemma_serialize_push(m.drop_first(), e);
        assert(spec_serialize(m.push(e)) == spec_entry_line(m[0]) + spec_serialize(
            m.drop_first().push(e),
        ));
        assert(spec_serialize(m) == spec_entry_line(m[0]) + spec_serialize(m.drop_first()));
        assert(spec_entry_line(m[0]) + (spec_serialize(m.drop_first()) + spec_entry_line(e))
            =~= (spec_entry_line(m[0]) + spec_serialize(m.drop_first())) + spec_entry_line(e));
    }
}

/// Writes the mapping in its canonical text form, one `key = value` line
/// per entry, in entry order.
pub fn serialize(map: &StoreMap) -> (r: String)
    ensures
        r@ == spec_serialize(map@),
{
    let mut r = String::new();
    let n = map.entries.len();
    let mut i: usize = 0;
    proof {
        assert(map@.subrange(0, 0) =~= Seq::<(Seq<char>, Seq<char>)>::empty());
    }
    while i < n
        invariant
            0 <= i <= n,
            n == map.entries.len(),
            r@ == spec_serialize(map@.subrange(0, i as int)),
        decreases n - i,
    {
        let ghost prev = r@;
        r.append(map.entries[i].0.as_str());
        r.append(" = ");
        r.append(map.entries[i].1.as_str());
        r.append("\n");
        proof {
            lemma_sep_literal();
            lemma_nl_literal();
            assert(map@.subrange(0, i as int + 1) =~= map@.subrange(0, i as int).push(
                map@[i as int],
            ));
            lemma_serialize_push(map@.subrange(0, i as int), map@[i as int]);
            assert(r@ =~= prev + spec_entry_line(map@[i as int]));
        }
        i += 1;
    }
    proof {
        assert(map@.subrange(0, n as int) =~= map@);
    }
    r
}

/// The three separator characters stand at position `i` of `s`.
pub open spec fn sep_at(s: Seq<char>, i: int) -> bool {
    0 <= i && i + 3 <= s.len() && s[i] == ' ' && s[i + 1] == '=' && s[i + 2] == ' '
}

/// The separator occurs somewhere in `s`.
pub open spec fn has_sep(s: Seq<char>) -> bool {
    exists|i: int| sep_at(s, i)
}

/// The position of the first separator at or after `i`, or `-1`.
pub open spec fn first_sep_from(s: Seq<char>, i: int) -> int
    decreases s.len() - i,
{
    if i + 3 > s.len() {
        -1
    } else if s[i] == ' ' && s[i + 1] == '=' && s[i + 2] == ' ' {
        i
    } else {
        first_sep_from(s, i + 1)
    }
}

/// The position of the first separator in `s`, or `-1` when there is none.
pub open spec fn first_sep(s: Seq<char>) -> int {
    first_sep_from(s, 0)
}

pub proof fn lemma_first_sep_from(s: Seq<char>, i: int)
    requires
        0 <= i,
    ensures
        first_sep_from(s, i) == -1 || first_sep_from(s, i) >= i,
        first_sep_from(s, i) == -1 ==> forall|j: int| i <= j ==> !sep_at(s, j),
        first_sep_from(s, i) >= 0 ==> i <= first_sep_from(s, i) && sep_at(s, first_sep_from(s, i))
            && (forall|j: int| i <= j < first_sep_from(s, i) ==> !sep_at(s, j)),
    decreases s.len() - i,
{
    if i + 3 > s.len() {
        assert forall|j: int| i <= j implies !sep_at(s, j) by {}
    } else if s[i] == ' ' && s[i + 1] == '=' && s[i + 2] == ' ' {
    } else {
        lemma_first_sep_from(s, i + 1);
        assert(!sep_at(s, i));
    }
}

/// Finds the first separator of `s`, scanning left to right.
pub fn find_sep(s: &str) -> (r: Option<usize>)
    ensures
        match r {
            Some(i) => first_sep(s@) == i as int && sep_at(s@, i as int),
            None => first_sep(s@) == -1 && !has_sep(s@),
        },
{
    let n = s.unicode_len();
    if n < 3 {
        proof {
            lemma_first_sep_from(s@, 0);
            assert forall|j: int| !sep_at(s@, j) by {}
        }
        return None;
    }
    let mut i: usize = 0;
    while i <= n - 3
        invariant
            0 <= i,
            3 <= n,
            n == s@.len(),
            first_sep_from(s@, 0) == first_sep_from(s@, i as int),
        decreases n - i,
    {
        if s.get_char(i) == ' ' && s.get_char(i + 1) == '=' && s.get_char(i + 2) == ' ' {
            proof {
                assert(sep_at(s@, i as int));
                assert(first_sep_from(s@, i as int) == i as int);
            }
            return Some(i);
        }
        proof {
            assert(first_sep_from(s@, i as int) == first_sep_from(s@, i as int + 1));
        }
        i += 1;
    }
    proof {
        assert(first_sep_from(s@, i as int) == -1);
        lemma_first_sep_from(s@, 0);
        assert forall|j: int| !sep_at(s@, j) by {
            if 0 <= j {
                assert(!sep_at(s@, j));
            }
        }
    }
    None
}

/// Splits a line of the shape `key = value` at its first separator;
/// the caller must know a separator is there.
pub fn deserialize(line: &str) -> (r: (String, String))
    requires
        has_sep(line@),
    ensures
        r.0@ == line@.subrange(0, first_sep(line@)),
        r.1@ == line@.subrange(first_sep(line@) + 3, line@.len() as int),
{
    let n = line.unicode_len();
    match find_sep(line) {
        Some(i) => {
            let k = String::from_str(line.substring_char(0, i));
            let v = String::from_str(line.substring_char(i + 3, n));
            (k, v)
        },
        None => {
            proof {
                assert(false);
            }
            (String::new(), String::new())
        },
    }
}

/// What one line of the backing file contributes: `Some((key, value))`
/// for a line of the shape `key = value` with a nonempty word-character
/// key before the first separator, `None` for any other line, which is
/// ignored.
pub open spec fn spec_parse_line(line: Seq<char>) -> Option<(Seq<char>, Seq<char>)> {
    let i = first_sep(line);
    if i >= 1 && is_word_seq(line.subrange(0, i)) {
        Some((line.subrange(0, i), line.subrange(i + 3, line.len() as int)))
    } else {
        None
    }
}

/// Reads one line of the backing file, ignoring lines that do not have
/// the `key = value` shape with a nonempty key.
pub fn parse_line(line: &str) -> (r: Option<(String, String)>)
    ensures
        match r {
            Some(p) => spec_parse_line(line@) == Some((p.0@, p.1@)),
            None => spec_parse_line(line@) is None,
        },
{
    let n = line.unicode_len();
    match find_sep(line) {
        Some(i) => {
            let key = line.substring_char(0, i);
            if is_valid_key(key) {
                Some((String::from_str(key), String::from_str(line.substring_char(i + 3, n))))
            } else {
                None
            }
        },
        None => None,
    }
}

/// The pieces of `s` between its newline characters, in order.  A text
/// with `n` newlines has `n + 1` lines; the empty text has one empty
/// line.
pub open spec fn spec_lines(s: Seq<char>) -> Seq<Seq<char>>
    decreases s.len(),
{
    if s.len() == 0 {
        seq![Seq::<char>::empty()]
    } else if s[0] == '\n' {
        seq![Seq::<char>::empty()] + spec_lines(s.drop_first())
    } else {
        let rest = spec_lines(s.drop_first());
        seq![seq![s[0]] + rest[0]] + rest.drop_first()
    }
}

pub proof fn lemma_lines_nonempty(s: Seq<char>)
    ensures
        spec_lines(s).len() >= 1,
    decreases s.len(),
{
    if s.len() == 0 {
    } else {
        lemma_lines_nonempty(s.drop_first());
    }
}

/// A text without a newline is one single line.
pub proof fn lemma_lines_no_nl(s: Seq<char>)
    requires
        !s.contains('\n'),
    ensures
        spec_lines(s) == seq![s],
    decreases s.len(),
{
    if s.len() == 0 {
        assert(s =~= Seq::<char>::empty());
        assert(spec_lines(s) =~= seq![s]);
    } else {
        assert(s[0] != '\n');
        assert(!s.drop_first().contains('\n')) by {
            assert forall|k: int| 0 <= k < s.drop_first().len() implies s.drop_first()[k]
                != '\n' by {
                assert(s.drop_first()[k] == s[k + 1]);
            }
        }
        lemma_lines_no_nl(s.drop_first());
        lemma_lines_nonempty(s.drop_first());
        assert(spec_lines(s.drop_first())[0] == s.drop_first());
        assert(seq![s[0]] + s.drop_first() =~= s);
        assert(spec_lines(s) =~= seq![s]);
    }
}

/// Splitting after a first newline-free line gives that line and then
/// the lines of the rest.
pub proof fn lemma_lines_concat(l: Seq<char>, rest: Seq<char>)
    requires
        !l.contains('\n'),
    ensures
        spec_lines(l + seq!['\n'] + rest) == seq![l] + spec_lines(rest),
    decreases l.len(),
{
    let s = l + seq!['\n'] + rest;
    if l.len() == 0 {
        assert(s[0] == '\n');
        assert(s.drop_first() =~= rest);
        assert(l =~= Seq::<char>::empty());
        assert(spec_lines(s) =~= seq![l] + spec_lines(rest));
    } else {
        assert(s[0] == l[0]);
        assert(l[0] != '\n');
        assert(!l.drop_first().contains('\n')) by {
            assert forall|k: int| 0 <= k < l.drop_first().len() implies l.drop_first()[k]
                != '\n' by {
                assert(l.drop_first()[k] == l[k + 1]);
            }
        }
        assert(s.drop_first() =~= l.drop_first() + seq!['\n'] + rest);
        lemma_lines_concat(l.drop_first(), rest);
        lemma_lines_nonempty(rest);
        let r2 = spec_lines(s.drop_first());
        assert(r2 == seq![l.drop_first()] + spec_lines(rest));
        assert(r2[0] == l.drop_first());
        assert(r2.drop_first() =~= spec_lines(rest));
        assert(seq![s[0]] + r2[0] =~= l);
        assert(spec_lines(s) == seq![seq![s[0]] + r2[0]] + r2.drop_first());
        assert(spec_lines(s) =~= seq![l] + spec_lines(rest));
    }
}

/// No line of a text holds a newline character.
pub proof fn lemma_lines_no_nl_members(s: Seq<char>)
    ensures
        forall|x: int|
            0 <= x < spec_lines(s).len() ==> !(#[trigger] spec_lines(s)[x]).contains('\n'),
    decreases s.len(),
{
    if s.len() == 0 {
        assert(!Seq::<char>::empty().contains('\n'));
    } else if s[0] == '\n' {
        lemma_lines_no_nl_members(s.drop_first());
        assert(!Seq::<char>::empty().contains('\n'));
        assert forall|x: int| 0 <= x < spec_lines(s).len() implies !(
        #[trigger] spec_lines(s)[x]).contains('\n') by {
            if x >= 1 {
                assert(spec_lines(s)[x] == spec_lines(s.drop_first())[x - 1]);
            }
        }
    } else {
        lemma_lines_no_nl_members(s.drop_first());
        lemma_lines_nonempty(s.drop_first());
        let rest = spec_lines(s.drop_first());
        let head = seq![s[0]] + rest[0];
        assert(!head.contains('\n')) by {
            assert(!rest[0].contains('\n'));
            assert forall|c: int| 0 <= c < head.len() implies head[c] != '\n' by {
                if c >= 1 {
                    assert(head[c] == rest[0][c - 1]);
                }
            }
        }
        assert forall|x: int| 0 <= x < spec_lines(s).len() implies !(
        #[trigger] spec_lines(s)[x]).contains('\n') by {
            if x == 0 {
                assert(spec_lines(s)[0] == head);
            } else {
                assert(spec_lines(s)[x] == rest[x]);
            }
        }
    }
}

/// Splits a text into its lines at newline characters.
pub fn split_lines(s: &str) -> (r: Vec<String>)
    ensures
        r.deep_view() == spec_lines(s@),
{
    let n = s.unicode_len();
    let mut r: Vec<String> = Vec::new();
    let mut start: usize = 0;
    let mut i: usize = 0;
    proof {
        assert(r.deep_view() =~= Seq::<Seq<char>>::empty());
        assert(s@.skip(0) =~= s@);
        assert(Seq::<Seq<char>>::empty() + spec_lines(s@) =~= spec_lines(s@));
    }
    while i < n
        invariant
            0 <= start <= i <= n,
            n == s@.len(),
            forall|j: int| start <= j < i ==> s@[j] != '\n',
            r.deep_view() + spec_lines(s@.skip(start as int)) == spec_lines(s@),
        decreases n - i,
    {
        if s.get_char(i) == '\n' {
            let line = String::from_str(s.substring_char(start, i));
            let ghost prevdv = r.deep_view();
            r.push(line);
            proof {
                assert(r.deep_view() =~= prevdv.push(line@));
                assert(line@ == s@.subrange(start as int, i as int));
                assert(!line@.contains('\n')) by {
                    assert forall|k: int| 0 <= k < line@.len() implies line@[k] != '\n' by {
                        assert(line@[k] == s@[start as int + k]);
                    }
                }
                assert(s@.skip(start as int) =~= line@ + seq!['\n'] + s@.skip(i as int + 1));
                lemma_lines_concat(line@, s@.skip(i as int + 1));
                assert(prevdv + (seq![line@] + spec_lines(s@.skip(i as int + 1))) =~= r.deep_view()
                    + spec_lines(s@.skip(i as int + 1)));
            }
            start = i + 1;
        }
        i += 1;
    }
    let line = String::from_str(s.substring_char(start, n));
    let ghost prevdv = r.deep_view();
    r.push(line);
    proof {
        assert(r.deep_view() =~= prevdv.push(line@));
        assert(line@ =~= s@.skip(start as int));
        assert(!line@.contains('\n')) by {
            assert forall|k: int| 0 <= k < line@.len() implies line@[k] != '\n' by {
                assert(line@[k] == s@[start as int + k]);
            }
        }
        lemma_lines_no_nl(line@);
        assert(prevdv + seq![line@] =~= r.deep_view());
    }
    r
}

/// What removing a key leaves: the key itself is gone, no other key
/// appears or disappears, well-formedness is kept, and removing an
/// absent key changes nothing.
pub proof fn lemma_remove_props(m: Seq<(Seq<char>, Seq<char>)>, k: Seq<char>)
    ensures
        !store_contains(spec_remove(m, k), k),
        forall|k2: Seq<char>| #[trigger] store_contains(spec_remove(m, k), k2) ==> store_contains(
            m,
            k2,
        ),
        store_wf(m) ==> store_wf(spec_remove(m, k)),
        !store_contains(m, k) ==> spec_remove(m, k) == m,
    decreases m.len(),
{
    if m.len() == 0 {
        assert(spec_remove(m, k) =~= m);
    } else {
        let rest = m.drop_first();
        lemma_remove_props(rest, k);
        let r = spec_remove(rest, k);
        assert(forall|i: int| 0 <= i < rest.len() ==> rest[i] == m[i + 1]);
        assert(forall|k2: Seq<char>| store_contains(rest, k2) ==> store_contains(m, k2)) by {
            assert forall|k2: Seq<char>| store_contains(rest, k2) implies store_contains(
                m,
                k2,
            ) by {
                let i = choose|i: int| 0 <= i < rest.len() && #[trigger] rest[i].0 == k2;
                assert(m[i + 1].0 == k2);
            }
        }
        if store_wf(m) {
            assert(store_wf(rest)) by {
                assert forall|i: int, j: int| 0 <= i < j < rest.len() implies (
                #[trigger] rest[i]).0 != (#[trigger] rest[j]).0 by {
                    assert(rest[i] == m[i + 1] && rest[j] == m[j + 1]);
                }
            }
        }
        if m[0].0 == k {
            assert(spec_remove(m, k) == r);
            if !store_contains(m, k) {
                assert(m[0].0 == k);
            }
        } else {
            let res = seq![m[0]] + r;
            assert(spec_remove(m, k) == res);
            assert(res[0] == m[0]);
            assert(forall|i: int| 1 <= i < res.len() ==> res[i] == r[i - 1]);
            assert(!store_contains(res, k)) by {
                if store_contains(res, k) {
                    let i = choose|i: int| 0 <= i < res.len() && #[trigger] res[i].0 == k;
                    if i >= 1 {
                        assert(r[i - 1].0 == k);
                        assert(store_contains(r, k));
                    }
                }
            }
            assert forall|k2: Seq<char>| #[trigger] store_contains(res, k2) implies store_contains(
                m,
                k2,
            ) by {
                let i = choose|i: int| 0 <= i < res.len() && #[trigger] res[i].0 == k2;
                if i == 0 {
                    assert(m[0].0 == k2);
                } else {
                    assert(r[i - 1].0 == k2);
                    assert(store_contains(r, k2));
                    assert(store_contains(rest, k2));
                }
            }
            if store_wf(m) {
                assert(store_wf(res)) by {
                    assert forall|i: int, j: int| 0 <= i < j < res.len() implies (
                    #[trigger] res[i]).0 != (#[trigger] res[j]).0 by {
                        if i == 0 {
                            if res[0].0 == res[j].0 {
                                assert(r[j - 1].0 == m[0].0);
                                assert(store_contains(r, m[0].0));
                                assert(store_contains(rest, m[0].0));
                                let w = choose|w: int|
                                    0 <= w < rest.len() && #[trigger] rest[w].0 == m[0].0;
                                assert(m[w + 1].0 == m[0].0);
                            }
                        } else {
                            assert(res[i] == r[i - 1] && res[j] == r[j - 1]);
                        }
                    }
                }
            }
            if !store_contains(m, k) {
                assert(!store_contains(rest, k)) by {
                    if store_contains(rest, k) {
                        let w = choose|w: int| 0 <= w < rest.len() && #[trigger] rest[w].0 == k;
                        assert(m[w + 1].0 == k);
                    }
                }
                assert(r == rest);
                assert(res =~= m);
            }
        }
    }
}

/// Every entry that removing a key leaves was an entry before.
pub proof fn lemma_remove_entries(m: Seq<(Seq<char>, Seq<char>)>, k: Seq<char>, i: int)
    requires
        0 <= i < spec_remove(m, k).len(),
    ensures
        exists|j: int| 0 <= j < m.len() && spec_remove(m, k)[i] == #[trigger] m[j],
    decreases m.len(),
{
    let rest = m.drop_first();
    if m[0].0 == k {
        lemma_remove_entries(rest, k, i);
        let j = choose|j: int| 0 <= j < rest.len() && spec_remove(rest, k)[i] == #[trigger] rest[j];
        assert(spec_remove(m, k)[i] == m[j + 1]);
    } else {
        let res = seq![m[0]] + spec_remove(rest, k);
        if i == 0 {
            assert(res[0] == m[0]);
        } else {
            assert(res[i] == spec_remove(rest, k)[i - 1]);
            lemma_remove_entries(rest, k, i - 1);
            let j = choose|j: int|
                0 <= j < rest.len() && spec_remove(rest, k)[i - 1] == #[trigger] rest[j];
            assert(spec_remove(m, k)[i] == m[j + 1]);
        }
    }
}

/// Removing one key does not lose any other key.
pub proof fn lemma_remove_keeps_other_key(
    m: Seq<(Seq<char>, Seq<char>)>,
    k: Seq<char>,
    k2: Seq<char>,
)
    requires
        k2 != k,
        store_contains(m, k2),
    ensures
        store_contains(spec_remove(m, k), k2),
    decreases m.len(),
{
    let rest = m.drop_first();
    let w = choose|w: int| 0 <= w < m.len() && #[trigger] m[w].0 == k2;
    if m[0].0 == k {
        assert(w >= 1);
        assert(rest[w - 1].0 == k2);
        lemma_remove_keeps_other_key(rest, k, k2);
    } else {
        let res = seq![m[0]] + spec_remove(rest, k);
        if w == 0 {
            assert(res[0].0 == k2);
        } else {
            assert(rest[w - 1].0 == k2);
            lemma_remove_keeps_other_key(rest, k, k2);
            let i = choose|i: int|
                0 <= i < spec_remove(rest, k).len() && #[trigger] spec_remove(rest, k)[i].0 == k2;
            assert(res[i + 1].0 == k2);
        }
    }
}

/// An overwriting insert keeps the keys pairwise distinct.
pub proof fn lemma_put_wf(m: Seq<(Seq<char>, Seq<char>)>, k: Seq<char>, v: Seq<char>)
    requires
        store_wf(m),
    ensures
        store_wf(spec_put(m, k, v)),
{
    lemma_remove_props(m, k);
    let r = spec_remove(m, k);
    let res = r.push((k, v));
    assert forall|i: int, j: int| 0 <= i < j < res.len() implies (#[trigger] res[i]).0 != (
    #[trigger] res[j]).0 by {
        if j < r.len() {
            assert(res[i] == r[i] && res[j] == r[j]);
        } else {
            assert(res[j] == (k, v));
            assert(res[i] == r[i]);
            if r[i].0 == k {
                assert(store_contains(r, k));
            }
        }
    }
}

/// Folds the parsed lines into a mapping, the first line first; a later
/// line under an already-seen key overwrites the stored value.
pub open spec fn spec_parse_lines(
    acc: Seq<(Seq<char>, Seq<char>)>,
    lines: Seq<Seq<char>>,
) -> Seq<(Seq<char>, Seq<char>)>
    decreases lines.len(),
{
    if lines.len() == 0 {
        acc
    } else {
        let acc2 = match spec_parse_line(lines[0]) {
            Some(kv) => spec_put(acc, kv.0, kv.1),
            None => acc,
        };
        spec_parse_lines(acc2, lines.drop_first())
    }
}

/// The mapping read from a backing text: every line of the shape
/// `key = value` contributes an entry, any other line is ignored.
pub open spec fn spec_parse(content: Seq<char>) -> Seq<(Seq<char>, Seq<char>)> {
    spec_parse_lines(Seq::empty(), spec_lines(content))
}

/// Reads a whole backing text into a store, ignoring lines that do not
/// have the `key = value` shape with a nonempty word-character key.
/// Every key of the result is valid, keys are pairwise distinct, and no
/// value holds a newline.
pub fn parse_config(content: &str) -> (r: StoreMap)
    ensures
        r@ == spec_parse(content@),
        store_wf(r@),
        forall|i: int| 0 <= i < r@.len() ==> valid_key((#[trigger] r@[i]).0),
        forall|i: int| 0 <= i < r@.len() ==> !(#[trigger] r@[i]).1.contains('\n'),
{
    proof {
        lemma_parse_props(content@);
    }
    let lines = split_lines(content);
    let mut store = StoreMap::new();
    let n = lines.len();
    let mut j: usize = 0;
    proof {
        assert(lines.deep_view().skip(0) =~= lines.deep_view());
    }
    while j < n
        invariant
            0 <= j <= n,
            n == lines.len(),
            lines.deep_view() == spec_lines(content@),
            store_wf(store@),
            spec_parse_lines(store@, lines.deep_view().skip(j as int)) == spec_parse(content@),
        decreases n - j,
    {
        let ghost tail = lines.deep_view().skip(j as int);
        proof {
            assert(tail[0] == lines.deep_view()[j as int]);
            assert(lines.deep_view()[j as int] == lines[j as int]@);
            assert(tail.drop_first() =~= lines.deep_view().skip(j as int + 1));
        }
        match parse_line(lines[j].as_str()) {
            Some(p) => {
                proof {
                    lemma_put_wf(store@, p.0@, p.1@);
                }
                store.put(p.0, p.1);
            },
            None => {},
        }
        j += 1;
    }
    proof {
        assert(lines.deep_view().skip(n as int) =~= Seq::<Seq<char>>::empty());
    }
    store
}

/// What folding parsed lines keeps invariant: keys stay pairwise
/// distinct, every key is valid, and no value holds a newline, given
/// the same of the accumulator and newline-free lines.
proof fn lemma_parse_lines_props(acc: Seq<(Seq<char>, Seq<char>)>, lines: Seq<Seq<char>>)
    requires
        store_wf(acc),
        forall|i: int| 0 <= i < acc.len() ==> valid_key((#[trigger] acc[i]).0),
        forall|i: int| 0 <= i < acc.len() ==> !(#[trigger] acc[i]).1.contains('\n'),
        forall|x: int| 0 <= x < lines.len() ==> !(#[trigger] lines[x]).contains('\n'),
    ensures
        store_wf(spec_parse_lines(acc, lines)),
        forall|i: int|
            0 <= i < spec_parse_lines(acc, lines).len() ==> valid_key(
                (#[trigger] spec_parse_lines(acc, lines)[i]).0,
            ),
        forall|i: int|
            0 <= i < spec_parse_lines(acc, lines).len() ==> !(#[trigger] spec_parse_lines(
                acc,
                lines,
            )[i]).1.contains('\n'),
    decreases lines.len(),
{
    if lines.len() == 0 {
    } else {
        let line = lines[0];
        match spec_parse_line(line) {
            Some(kv) => {
                let fs = first_sep(line);
                lemma_first_sep_from(line, 0);
                assert(sep_at(line, fs));
                assert(fs >= 1 && is_word_seq(line.subrange(0, fs)));
                assert(kv == (line.subrange(0, fs), line.subrange(fs + 3, line.len() as int)));
                assert(valid_key(kv.0));
                assert(!kv.1.contains('\n')) by {
                    assert forall|c: int| 0 <= c < kv.1.len() implies kv.1[c] != '\n' by {
                        assert(kv.1[c] == line[fs + 3 + c]);
                        assert(!line.contains('\n'));
                    }
                }
                let acc2 = spec_put(acc, kv.0, kv.1);
                lemma_put_wf(acc, kv.0, kv.1);
                let rm = spec_remove(acc, kv.0);
                assert forall|i: int| 0 <= i < acc2.len() implies valid_key(
                    (#[trigger] acc2[i]).0,
                ) && !(#[trigger] acc2[i]).1.contains('\n') by {
                    if i < rm.len() {
                        assert(acc2[i] == rm[i]);
                        lemma_remove_entries(acc, kv.0, i);
                        let j = choose|j: int| 0 <= j < acc.len() && rm[i] == #[trigger] acc[j];
                        assert(valid_key(acc[j].0));
                    } else {
                        assert(acc2[i] == (kv.0, kv.1));
                    }
                }
                assert forall|x: int| 0 <= x < lines.drop_first().len() implies !(
                #[trigger] lines.drop_first()[x]).contains('\n') by {
                    assert(lines.drop_first()[x] == lines[x + 1]);
                }
                lemma_parse_lines_props(acc2, lines.drop_first());
            },
            None => {
                assert forall|x: int| 0 <= x < lines.drop_first().len() implies !(
                #[trigger] lines.drop_first()[x]).contains('\n') by {
                    assert(lines.drop_first()[x] == lines[x + 1]);
                }
                lemma_parse_lines_props(acc, lines.drop_first());
            },
        }
    }
}

/// Every entry of a parsed backing text has a valid key and a value
/// without a newline, and the keys are pairwise distinct: every store
/// state reachable through loading satisfies the data model.
pub proof fn lemma_parse_props(content: Seq<char>)
    ensures
        store_wf(spec_parse(content)),
        forall|i: int|
            0 <= i < spec_parse(content).len() ==> valid_key(
                (#[trigger] spec_parse(content)[i]).0,
            ),
        forall|i: int|
            0 <= i < spec_parse(content).len() ==> !(#[trigger] spec_parse(
                content,
            )[i]).1.contains('\n'),
{
    lemma_lines_no_nl_members(content);
    lemma_parse_lines_props(Seq::empty(), spec_lines(content));
}

/// Once a key is present in the accumulator, folding further parsed
/// lines never loses it: a later line can only overwrite its value.
proof fn lemma_parse_lines_keeps_key(
    acc: Seq<(Seq<char>, Seq<char>)>,
    lines: Seq<Seq<char>>,
    k: Seq<char>,
)
    requires
        store_contains(acc, k),
    ensures
        store_contains(spec_parse_lines(acc, lines), k),
    decreases lines.len(),
{
    if lines.len() == 0 {
    } else {
        match spec_parse_line(lines[0]) {
            Some(kv) => {
                let acc2 = spec_put(acc, kv.0, kv.1);
                let rm = spec_remove(acc, kv.0);
                assert(store_contains(acc2, k)) by {
                    if kv.0 == k {
                        assert(acc2[rm.len() as int].0 == k);
                    } else {
                        lemma_remove_keeps_other_key(acc, kv.0, k);
                        let i = choose|i: int| 0 <= i < rm.len() && #[trigger] rm[i].0 == k;
                        assert(acc2[i].0 == k);
                    }
                }
                lemma_parse_lines_keeps_key(acc2, lines.drop_first(), k);
            },
            None => {
                lemma_parse_lines_keeps_key(acc, lines.drop_first(), k);
            },
        }
    }
}

pub proof fn lemma_first_sep_found(s: Seq<char>, r: int)
    requires
        sep_at(s, r),
        forall|j: int| 0 <= j < r ==> !sep_at(s, j),
    ensures
        first_sep(s) == r,
{
    lemma_first_sep_from(s, 0);
    let fs = first_sep(s);
    if fs == -1 {
        assert(!sep_at(s, r));
    } else {
        if fs < r {
            assert(!sep_at(s, fs));
        }
        if fs > r {
            assert(!sep_at(s, r));
        }
    }
}

/// A line written as `key = value` with a valid key parses back to
/// exactly that entry.
pub proof fn lemma_parse_entry_line(k: Seq<char>, v: Seq<char>)
    requires
        valid_key(k),
    ensures
        spec_parse_line(k + spec_sep() + v) == Some((k, v)),
{
    let l = k + spec_sep() + v;
    assert(l[k.len() as int] == ' ');
    assert(l[k.len() as int + 1] == '=');
    assert(l[k.len() as int + 2] == ' ');
    assert(sep_at(l, k.len() as int));
    assert(!is_word_char(' '));
    assert forall|j: int| 0 <= j < k.len() implies !sep_at(l, j) by {
        assert(l[j] == k[j]);
        assert(is_word_char(k[j]));
    }
    lemma_first_sep_found(l, k.len() as int);
    assert(l.subrange(0, k.len() as int) =~= k);
    assert(l.subrange(k.len() as int + 3, l.len() as int) =~= v);
}

/// Reading back a serialized mapping followed by any trailing text
/// recovers the mapping entry for entry, on top of whatever was
/// accumulated before it, and then goes on with the trailing text.
proof fn lemma_parse_serialize_prefix(
    acc: Seq<(Seq<char>, Seq<char>)>,
    m: Seq<(Seq<char>, Seq<char>)>,
    tail: Seq<char>,
)
    requires
        forall|i: int| 0 <= i < m.len() ==> valid_key((#[trigger] m[i]).0),
        forall|i: int| 0 <= i < m.len() ==> !(#[trigger] m[i]).1.contains('\n'),
        store_wf(acc + m),
    ensures
        spec_parse_lines(acc, spec_lines(spec_serialize(m) + tail)) == spec_parse_lines(
            acc + m,
            spec_lines(tail),
        ),
    decreases m.len(),
{
    if m.len() == 0 {
        assert(spec_serialize(m) + tail =~= tail);
        assert(acc + m =~= acc);
    } else {
        let e = m[0];
        let rest = m.drop_first();
        let l = e.0 + spec_sep() + e.1;
        assert(valid_key(e.0) && !e.1.contains('\n'));
        assert(spec_serialize(m) + tail =~= l + seq!['\n'] + (spec_serialize(rest) + tail));
        assert(!l.contains('\n')) by {
            assert(!is_word_char('\n'));
            assert forall|x: int| 0 <= x < l.len() implies l[x] != '\n' by {
                if x < e.0.len() {
                    assert(l[x] == e.0[x]);
                    assert(is_word_char(e.0[x]));
                } else if x < e.0.len() + 3 {
                    assert(l[x] == spec_sep()[x - e.0.len()]);
                } else {
                    assert(l[x] == e.1[x - e.0.len() - 3]);
                    assert(!e.1.contains('\n'));
                }
            }
        }
        lemma_lines_concat(l, spec_serialize(rest) + tail);
        assert(spec_lines(spec_serialize(m) + tail) == seq![l] + spec_lines(
            spec_serialize(rest) + tail,
        ));
        lemma_parse_entry_line(e.0, e.1);
        let lines = spec_lines(spec_serialize(m) + tail);
        assert(lines[0] == l);
        assert(spec_parse_line(lines[0]) == Some((e.0, e.1)));
        assert(!store_contains(acc, e.0)) by {
            if store_contains(acc, e.0) {
                let w = choose|w: int| 0 <= w < acc.len() && #[trigger] acc[w].0 == e.0;
                assert((acc + m)[w] == acc[w]);
                assert((acc + m)[acc.len() as int] == e);
                assert(store_wf(acc + m));
            }
        }
        lemma_remove_props(acc, e.0);
        assert(spec_put(acc, e.0, e.1) == acc.push((e.0, e.1)));
        assert((e.0, e.1) == e);
        assert(acc.push(e) + rest =~= acc + m);
        assert(forall|i: int| 0 <= i < rest.len() ==> rest[i] == m[i + 1]);
        assert forall|i: int| 0 <= i < rest.len() implies valid_key((#[trigger] rest[i]).0) && !(
        #[trigger] rest[i]).1.contains('\n') by {
            assert(rest[i] == m[i + 1]);
        }
        lemma_parse_serialize_prefix(acc.push(e), rest, tail);
        assert(lines.drop_first() =~= spec_lines(spec_serialize(rest) + tail));
        assert(spec_parse_lines(acc, lines) == spec_parse_lines(
            spec_put(acc, e.0, e.1),
            lines.drop_first(),
        ));
        assert(spec_parse_lines(acc.push(e), spec_lines(spec_serialize(rest) + tail))
            == spec_parse_lines(acc + m, spec_lines(tail)));
        assert(spec_parse_lines(acc, lines) == spec_parse_lines(acc + m, spec_lines(tail)));
    }
}

/// Round trip: a well-formed mapping whose keys are valid and whose
/// values hold no newline is read back unchanged from its own canonical
/// text form.
pub proof fn lemma_store_round_trip(m: Seq<(Seq<char>, Seq<char>)>)
    requires
        forall|i: int| 0 <= i < m.len() ==> valid_key((#[trigger] m[i]).0),
        forall|i: int| 0 <= i < m.len() ==> !(#[trigger] m[i]).1.contains('\n'),
        store_wf(m),
    ensures
        spec_parse(spec_serialize(m)) == m,
{
    assert(Seq::<(Seq<char>, Seq<char>)>::empty() + m =~= m);
    lemma_parse_serialize_prefix(Seq::empty(), m, Seq::empty());
    assert(spec_serialize(m) + Seq::<char>::empty() =~= spec_serialize(m));
    let lines0 = spec_lines(Seq::<char>::empty());
    assert(lines0 =~= seq![Seq::<char>::empty()]);
    assert(first_sep(Seq::<char>::empty()) == -1);
    assert(spec_parse_line(Seq::<char>::empty()) is None);
    assert(lines0.drop_first() =~= Seq::<Seq<char>>::empty());
    assert(spec_parse_lines(m, Seq::<Seq<char>>::empty()) == m);
    assert(spec_parse_lines(m, lines0) == m);
}

/// No-clobber: adding under a key a second time is a no-op, whatever the
/// second value.
pub proof fn lemma_add_no_clobber(
    m: Seq<(Seq<char>, Seq<char>)>,
    k: Seq<char>,
    v1: Seq<char>,
    v2: Seq<char>,
)
    ensures
        spec_add(spec_add(m, k, v1), k, v2) == spec_add(m, k, v1),
{
    if !store_contains(m, k) {
        let m1 = m.push((k, v1));
        assert(m1[m.len() as int].0 == k);
        assert(store_contains(m1, k));
    }
}

/// Removing a key twice is the same as removing it once.
pub proof fn lemma_remove_idempotent(m: Seq<(Seq<char>, Seq<char>)>, k: Seq<char>)
    ensures
        spec_remove(spec_remove(m, k), k) == spec_remove(m, k),
{
    lemma_remove_props(m, k);
    lemma_remove_props(spec_remove(m, k), k);
}

/// A text that holds a newline has a first one, with none before it.
proof fn lemma_split_first_nl(v: Seq<char>)
    requires
        v.contains('\n'),
    ensures
        exists|p: int|
            0 <= p < v.len() && #[trigger] v[p] == '\n' && !v.subrange(0, p).contains('\n'),
    decreases v.len(),
{
    if v[0] == '\n' {
        assert(!v.subrange(0, 0).contains('\n'));
        assert(v[0] == '\n');
    } else {
        assert(v.drop_first().contains('\n')) by {
            let w = choose|w: int| 0 <= w < v.len() && #[trigger] v[w] == '\n';
            assert(w >= 1);
            assert(v.drop_first()[w - 1] == '\n');
        }
        lemma_split_first_nl(v.drop_first());
        let p = choose|p: int|
            0 <= p < v.drop_first().len() && #[trigger] v.drop_first()[p] == '\n'
                && !v.drop_first().subrange(0, p).contains('\n');
        assert(v[p + 1] == '\n');
        assert(!v.subrange(0, p + 1).contains('\n')) by {
            assert forall|c: int| 0 <= c < p + 1 implies #[trigger] v.subrange(0, p + 1)[c]
                != '\n' by {
                if c == 0 {
                    assert(v.subrange(0, p + 1)[0] == v[0]);
                } else {
                    assert(v.subrange(0, p + 1)[c] == v.drop_first()[c - 1]);
                    assert(v.drop_first().subrange(0, p)[c - 1] == v.drop_first()[c - 1]);
                    assert(!v.drop_first().subrange(0, p).contains('\n'));
                }
            }
        }
    }
}

/// No-clobber across the rewrite: after adding a fresh valid key and
/// rewriting, the key is present in the mapping read back from the new
/// content, whatever the value holds — so a second add under the same
/// key is a no-op on both the mapping and the content.
pub proof fn lemma_set_no_clobber(content: Seq<char>, k: Seq<char>, v1: Seq<char>)
    requires
        valid_key(k),
    ensures
        ({
            let m = spec_parse(content);
            let c1 = if store_contains(m, k) {
                content
            } else {
                spec_serialize(spec_add(m, k, v1))
            };
            store_contains(spec_parse(c1), k)
        }),
{
    let m = spec_parse(content);
    lemma_parse_props(content);
    if !store_contains(m, k) {
        let m1 = m.push((k, v1));
        assert(spec_add(m, k, v1) == m1);
        lemma_serialize_push(m, (k, v1));
        let entry = spec_entry_line((k, v1));
        assert(spec_serialize(m1) == spec_serialize(m) + entry);
        assert(Seq::<(Seq<char>, Seq<char>)>::empty() + m =~= m);
        lemma_parse_serialize_prefix(Seq::empty(), m, entry);
        assert(spec_parse(spec_serialize(m1)) == spec_parse_lines(m, spec_lines(entry)));
        // Split the value at its first newline, if any: the line up to
        // there parses as an entry under `k`, whatever follows cannot
        // remove it.
        if v1.contains('\n') {
            lemma_split_first_nl(v1);
        }
        let ghost va = if v1.contains('\n') {
            let p = choose|p: int|
                0 <= p < v1.len() && #[trigger] v1[p] == '\n' && !v1.subrange(0, p).contains('\n');
            v1.subrange(0, p)
        } else {
            v1
        };
        let ghost after = if v1.contains('\n') {
            let p = choose|p: int|
                0 <= p < v1.len() && #[trigger] v1[p] == '\n' && !v1.subrange(0, p).contains('\n');
            v1.subrange(p + 1, v1.len() as int) + seq!['\n']
        } else {
            Seq::<char>::empty()
        };
        let l = k + spec_sep() + va;
        assert(!va.contains('\n'));
        assert(entry =~= l + seq!['\n'] + after);
        assert(!l.contains('\n')) by {
            assert(!is_word_char('\n'));
            assert forall|x: int| 0 <= x < l.len() implies l[x] != '\n' by {
                if x < k.len() {
                    assert(l[x] == k[x]);
                    assert(is_word_char(k[x]));
                } else if x < k.len() + 3 {
                    assert(l[x] == spec_sep()[x - k.len()]);
                } else {
                    assert(l[x] == va[x - k.len() - 3]);
                    assert(!va.contains('\n'));
                }
            }
        }
        lemma_lines_concat(l, after);
        assert(spec_lines(entry) == seq![l] + spec_lines(after));
        lemma_parse_entry_line(k, va);
        let lines = spec_lines(entry);
        assert(lines[0] == l);
        assert(spec_parse_line(lines[0]) == Some((k, va)));
        let acc2 = spec_put(m, k, va);
        assert(lines.drop_first() =~= spec_lines(after));
        assert(spec_parse_lines(m, lines) == spec_parse_lines(acc2, spec_lines(after)));
        assert(store_contains(acc2, k)) by {
            assert(acc2[spec_remove(m, k).len() as int].0 == k);
        }
        lemma_parse_lines_keeps_key(acc2, spec_lines(after), k);
    }
}

} // verus!
