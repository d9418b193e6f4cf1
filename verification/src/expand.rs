//! The expander: scans an input string for bracketed tokens such as
//! `[home]` — a literal `[`, zero or more word characters, a literal
//! `]` — and replaces each, in match order, with the stored value for its
//! key.  A store entry wins over the built-in escape; the token `[rn]`
//! falls back to a carriage-return line-feed pair when the store has no
//! entry under `rn`.  A token that resolves to neither fails the whole
//! expansion.

use vstd::prelude::*;

use crate::text::is_word_char;
use crate::text::is_word_seq;
use crate::text::str_eq;
use crate::text::word_char;
use crate::store::StoreMap;
use crate::store::StoreError;
use crate::store::store_contains;
use crate::store::spec_lookup;

verus! {

/// The length of the run of word characters in `s` that starts at `i`.
pub open spec fn word_run(s: Seq<char>, i: int) -> nat
    decreases s.len() - i,
{
    if i < 0 || i >= s.len() || !is_word_char(s[i]) {
        0
    } else {
        1 + word_run(s, i + 1)
    }
}

pub proof fn lemma_word_run(s: Seq<char>, i: int)
    requires
        0 <= i <= s.len(),
    ensures
        i + word_run(s, i) <= s.len(),
        forall|j: int| i <= j < i + word_run(s, i) ==> is_word_char(#[trigger] s[j]),
        i + word_run(s, i) < s.len() ==> !is_word_char(s[i + word_run(s, i)]),
    decreases s.len() - i,
{
    if i < s.len() && is_word_char(s[i]) {
        lemma_word_run(s, i + 1);
    }
}

/// The run length is determined by any witness interval: all word
/// characters from `a` up to `b`, and `b` at the end or at a non-word
/// character.
pub proof fn lemma_word_run_eq(s: Seq<char>, a: int, b: int)
    requires
        0 <= a <= b <= s.len(),
        forall|j: int| a <= j < b ==> is_word_char(#[trigger] s[j]),
        b < s.len() ==> !is_word_char(s[b]),
    ensures
        word_run(s, a) == b - a,
    decreases b - a,
{
    if a == b {
        if a < s.len() {
            assert(!is_word_char(s[a]));
        }
    } else {
        assert(is_word_char(s[a]));
        lemma_word_run_eq(s, a + 1, b);
    }
}

/// A bracketed token starts at position `i` of `s`: a `[`, the maximal
/// run of word characters after it, and a `]` right after that run.
pub open spec fn token_at(s: Seq<char>, i: int) -> bool {
    &&& 0 <= i < s.len()
    &&& s[i] == '['
    &&& i + 1 + word_run(s, i + 1) < s.len()
    &&& s[i + 1 + word_run(s, i + 1)] == ']'
}

/// The length of the token starting at `i`, brackets included.
pub open spec fn token_len(s: Seq<char>, i: int) -> int {
    word_run(s, i + 1) as int + 2
}

/// Every non-overlapping bracketed token of `s`, leftmost first, each
/// with its brackets.
pub open spec fn spec_tokens(s: Seq<char>) -> Seq<Seq<char>>
    decreases s.len(),
{
    if s.len() == 0 {
        Seq::empty()
    } else if token_at(s, 0) {
        let l = token_len(s, 0);
        seq![s.subrange(0, l)] + spec_tokens(s.skip(l))
    } else {
        spec_tokens(s.drop_first())
    }
}

/// The key a token looks up: the token without its brackets.
pub open spec fn spec_token_key(t: Seq<char>) -> Seq<char> {
    t.subrange(1, t.len() - 1)
}

/// Every token starts with `[`, ends with `]`, and holds only word
/// characters in between.
pub proof fn lemma_tokens_shape(s: Seq<char>)
    ensures
        forall|x: int|
            0 <= x < spec_tokens(s).len() ==> {
                let t = #[trigger] spec_tokens(s)[x];
                &&& t.len() >= 2
                &&& t[0] == '['
                &&& t[t.len() - 1] == ']'
                &&& is_word_seq(spec_token_key(t))
            },
    decreases s.len(),
{
    if s.len() == 0 {
    } else if token_at(s, 0) {
        let l = token_len(s, 0);
        let run = word_run(s, 1);
        lemma_word_run(s, 1);
        let head = s.subrange(0, l);
        assert(head.len() == l);
        assert(head[0] == s[0]);
        assert(head[l - 1] == s[1 + run as int]);
        assert(is_word_seq(spec_token_key(head))) by {
            assert forall|j: int| 0 <= j < spec_token_key(head).len() implies is_word_char(
                #[trigger] spec_token_key(head)[j],
            ) by {
                assert(spec_token_key(head)[j] == s[j + 1]);
            }
        }
        lemma_tokens_shape(s.skip(l));
        assert forall|x: int| 0 <= x < spec_tokens(s).len() implies {
            let t = #[trigger] spec_tokens(s)[x];
            &&& t.len() >= 2
            &&& t[0] == '['
            &&& t[t.len() - 1] == ']'
            &&& is_word_seq(spec_token_key(t))
        } by {
            if x == 0 {
                assert(spec_tokens(s)[0] == head);
            } else {
                assert(spec_tokens(s)[x] == spec_tokens(s.skip(l))[x - 1]);
            }
        }
    } else {
        lemma_tokens_shape(s.drop_first());
        assert forall|x: int| 0 <= x < spec_tokens(s).len() implies {
            let t = #[trigger] spec_tokens(s)[x];
            &&& t.len() >= 2
            &&& t[0] == '['
            &&& t[t.len() - 1] == ']'
            &&& is_word_seq(spec_token_key(t))
        } by {
            assert(spec_tokens(s)[x] == spec_tokens(s.drop_first())[x]);
        }
    }
}

/// Collects the bracketed tokens of `s`, leftmost first, without
/// overlap, each with its brackets.
pub fn find_tokens(s: &str) -> (r: Vec<String>)
    ensures
        r.deep_view() == spec_tokens(s@),
{
    let n = s.unicode_len();
    let mut r: Vec<String> = Vec::new();
    let mut i: usize = 0;
    proof {
        assert(r.deep_view() =~= Seq::<Seq<char>>::empty());
        assert(s@.skip(0) =~= s@);
        assert(Seq::<Seq<char>>::empty() + spec_tokens(s@) =~= spec_tokens(s@));
    }
    while i < n
        invariant
            0 <= i <= n,
            n == s@.len(),
            r.deep_view() + spec_tokens(s@.skip(i as int)) == spec_tokens(s@),
        decreases n - i,
    {
        let ghost suf = s@.skip(i as int);
        proof {
            assert(suf.len() == n - i);
            assert(forall|x: int| 0 <= x < suf.len() ==> #[trigger] suf[x] == s@[i + x]);
        }
        if s.get_char(i) == '[' {
            let mut j = i + 1;
            while j < n && word_char(s.get_char(j))
                invariant
                    i + 1 <= j <= n,
                    n == s@.len(),
                    forall|x: int| i + 1 <= x < j ==> is_word_char(#[trigger] s@[x]),
                decreases n - j,
            {
                j += 1;
            }
            proof {
                assert forall|x: int| 1 <= x < j - i implies is_word_char(#[trigger] suf[x]) by {
                    assert(suf[x] == s@[i + x]);
                }
                if (j - i) < suf.len() {
                    assert(suf[j - i] == s@[j as int]);
                    assert(!is_word_char(suf[j - i]));
                }
                lemma_word_run_eq(suf, 1, j - i);
                assert(word_run(suf, 1) == j - i - 1);
            }
            if j < n && s.get_char(j) == ']' {
                proof {
                    assert(suf[0] == s@[i as int]);
                    assert(suf[j - i] == s@[j as int]);
                    assert(token_at(suf, 0));
                    assert(token_len(suf, 0) == j - i + 1);
                }
                let tok = String::from_str(s.substring_char(i, j + 1));
                let ghost prevdv = r.deep_view();
                r.push(tok);
                proof {
                    let l = j - i + 1;
                    assert(r.deep_view() =~= prevdv.push(tok@));
                    assert(tok@ =~= suf.subrange(0, l));
                    assert(suf.skip(l) =~= s@.skip(j as int + 1));
                    assert(spec_tokens(suf) == seq![suf.subrange(0, l)] + spec_tokens(
                        s@.skip(j as int + 1),
                    ));
                    assert(prevdv + (seq![tok@] + spec_tokens(s@.skip(j as int + 1)))
                        =~= r.deep_view() + spec_tokens(s@.skip(j as int + 1)));
                }
                i = j + 1;
            } else {
                proof {
                    if j < n {
                        assert(suf[1 + word_run(suf, 1) as int] == s@[j as int]);
                    }
                    assert(!token_at(suf, 0));
                    assert(suf.drop_first() =~= s@.skip(i as int + 1));
                    assert(spec_tokens(suf) == spec_tokens(s@.skip(i as int + 1)));
                }
                i += 1;
            }
        } else {
            proof {
                assert(suf[0] == s@[i as int]);
                assert(!token_at(suf, 0));
                assert(suf.drop_first() =~= s@.skip(i as int + 1));
                assert(spec_tokens(suf) == spec_tokens(s@.skip(i as int + 1)));
            }
            i += 1;
        }
    }
    proof {
        assert(s@.skip(n as int) =~= Seq::<char>::empty());
        assert(spec_tokens(Seq::<char>::empty()) =~= Seq::<Seq<char>>::empty());
        assert(r.deep_view() + Seq::<Seq<char>>::empty() =~= r.deep_view());
    }
    r
}

/// Strips the enclosing brackets from a token: everything between the
/// first and the last character.
pub fn rm_braces<'a>(s: &'a str) -> (r: &'a str)
    requires
        s@.len() >= 2,
    ensures
        r@ == s@.subrange(1, s@.len() - 1),
{
    let n = s.unicode_len();
    s.substring_char(1, n - 1)
}

/// `s` with every non-overlapping occurrence of `from`, leftmost first,
/// replaced by `to`.
pub open spec fn spec_replace_all(s: Seq<char>, from: Seq<char>, to: Seq<char>) -> Seq<char>
    decreases s.len(),
{
    if from.len() == 0 || s.len() == 0 {
        s
    } else if s.len() >= from.len() && s.subrange(0, from.len() as int) == from {
        to + spec_replace_all(s.skip(from.len() as int), from, to)
    } else {
        seq![s[0]] + spec_replace_all(s.drop_first(), from, to)
    }
}

/// Replaces every non-overlapping occurrence of `from` in `s` by `to`,
/// scanning left to right.
pub fn replace_all(s: &str, from: &str, to: &str) -> (r: String)
    requires
        from@.len() >= 1,
    ensures
        r@ == spec_replace_all(s@, from@, to@),
{
    let n = s.unicode_len();
    let m = from.unicode_len();
    let mut out = String::new();
    let mut i: usize = 0;
    proof {
        assert(s@.skip(0) =~= s@);
        assert(out@ + spec_replace_all(s@, from@, to@) =~= spec_replace_all(s@, from@, to@));
    }
    while i < n
        invariant
            0 <= i <= n,
            n == s@.len(),
            m == from@.len(),
            m >= 1,
            out@ + spec_replace_all(s@.skip(i as int), from@, to@) == spec_replace_all(
                s@,
                from@,
                to@,
            ),
        decreases n - i,
    {
        let ghost suf = s@.skip(i as int);
        let ghost prev = out@;
        if m <= n - i && str_eq(s.substring_char(i, i + m), from) {
            out.append(to);
            proof {
                assert(suf.subrange(0, m as int) =~= s@.subrange(i as int, i as int + m));
                assert(suf.subrange(0, m as int) == from@);
                assert(suf.skip(m as int) =~= s@.skip(i as int + m));
                assert(spec_replace_all(suf, from@, to@) == to@ + spec_replace_all(
                    s@.skip(i as int + m),
                    from@,
                    to@,
                ));
                assert(prev + (to@ + spec_replace_all(s@.skip(i as int + m), from@, to@)) =~= out@
                    + spec_replace_all(s@.skip(i as int + m), from@, to@));
            }
            i += m;
        } else {
            out.append(s.substring_char(i, i + 1));
            proof {
                assert(s@.subrange(i as int, i as int + 1) =~= seq![s@[i as int]]);
                assert(suf[0] == s@[i as int]);
                if suf.len() >= m && suf.subrange(0, m as int) == from@ {
                    assert(suf.subrange(0, m as int) =~= s@.subrange(i as int, i as int + m));
                    assert(false);
                }
                assert(suf.drop_first() =~= s@.skip(i as int + 1));
                assert(spec_replace_all(suf, from@, to@) == seq![s@[i as int]]
                    + spec_replace_all(s@.skip(i as int + 1), from@, to@));
                assert(prev + (seq![s@[i as int]] + spec_replace_all(
                    s@.skip(i as int + 1),
                    from@,
                    to@,
                )) =~= out@ + spec_replace_all(s@.skip(i as int + 1), from@, to@));
            }
            i += 1;
        }
    }
    proof {
        assert(s@.skip(n as int) =~= Seq::<char>::empty());
        assert(out@ + Seq::<char>::empty() =~= out@);
    }
    out
}

/// The key of the built-in escape token.
pub open spec fn rn_key() -> Seq<char> {
    seq!['r', 'n']
}

/// What the escape produces: a carriage return and a line feed.
pub open spec fn crlf() -> Seq<char> {
    seq!['\r', '\n']
}

pub proof fn lemma_rn_literal()
    ensures
        "rn"@ == rn_key(),
{
    reveal_strlit("rn");
    assert("rn"@ =~= rn_key());
}

pub proof fn lemma_crlf_literal()
    ensures
        "\r\n"@ == crlf(),
{
    reveal_strlit("\r\n");
    assert("\r\n"@ =~= crlf());
}

/// What a key resolves to: the store entry when there is one, else the
/// built-in escape for `rn`, else nothing.  The store is always tried
/// first, so a store entry under `rn` wins over the escape.
pub open spec fn spec_resolve(m: Seq<(Seq<char>, Seq<char>)>, key: Seq<char>) -> Option<Seq<char>> {
    if store_contains(m, key) {
        Some(spec_lookup(m, key))
    } else if key == rn_key() {
        Some(crlf())
    } else {
        None
    }
}

/// Escape precedence: under the key `rn` a store entry is returned when
/// there is one, and only an entry-less store falls back to the built-in
/// carriage-return line-feed pair.
pub proof fn lemma_escape_precedence(m: Seq<(Seq<char>, Seq<char>)>)
    ensures
        store_contains(m, rn_key()) ==> spec_resolve(m, rn_key()) == Some(spec_lookup(m, rn_key())),
        !store_contains(m, rn_key()) ==> spec_resolve(m, rn_key()) == Some(crlf()),
{
}

/// Resolves one key against the store, then the escape.
pub fn resolve(store: &StoreMap, key: &str) -> (r: Option<String>)
    ensures
        match r {
            Some(v) => spec_resolve(store@, key@) == Some(v@),
            None => spec_resolve(store@, key@) is None,
        },
{
    match store.get(key) {
        Some(v) => Some(v),
        None => {
            if str_eq(key, "rn") {
                proof {
                    lemma_rn_literal();
                    lemma_crlf_literal();
                }
                Some(String::from_str("\r\n"))
            } else {
                proof {
                    lemma_rn_literal();
                }
                None
            }
        },
    }
}

/// Folds the tokens into the working string: each resolved token is
/// replaced globally, in match order; the first unresolvable key aborts
/// with that key.
pub open spec fn spec_expand_tokens(
    cur: Seq<char>,
    m: Seq<(Seq<char>, Seq<char>)>,
    toks: Seq<Seq<char>>,
) -> Result<Seq<char>, Seq<char>>
    decreases toks.len(),
{
    if toks.len() == 0 {
        Ok(cur)
    } else {
        let key = spec_token_key(toks[0]);
        match spec_resolve(m, key) {
            Some(v) => spec_expand_tokens(spec_replace_all(cur, toks[0], v), m, toks.drop_first()),
            None => Err(key),
        }
    }
}

/// The whole expansion: the tokens of the input, resolved against the
/// store and substituted in match order; `Err` carries the first
/// unresolvable key.
pub open spec fn spec_expand(input: Seq<char>, m: Seq<(Seq<char>, Seq<char>)>) -> Result<
    Seq<char>,
    Seq<char>,
> {
    spec_expand_tokens(input, m, spec_tokens(input))
}

/// The expansion fails exactly when some token's key resolves to
/// neither a store entry nor the escape.
pub proof fn lemma_expand_tokens_err(
    cur: Seq<char>,
    m: Seq<(Seq<char>, Seq<char>)>,
    toks: Seq<Seq<char>>,
)
    ensures
        spec_expand_tokens(cur, m, toks) is Err <==> exists|x: int|
            0 <= x < toks.len() && spec_resolve(m, spec_token_key(#[trigger] toks[x])) is None,
    decreases toks.len(),
{
    if toks.len() == 0 {
    } else {
        let key = spec_token_key(toks[0]);
        match spec_resolve(m, key) {
            Some(v) => {
                lemma_expand_tokens_err(spec_replace_all(cur, toks[0], v), m, toks.drop_first());
                let rest = toks.drop_first();
                assert(forall|x: int| 0 <= x < rest.len() ==> #[trigger] rest[x] == toks[x + 1]);
                if spec_expand_tokens(cur, m, toks) is Err {
                    let x = choose|x: int|
                        0 <= x < rest.len() && spec_resolve(
                            m,
                            spec_token_key(#[trigger] rest[x]),
                        ) is None;
                    assert(spec_resolve(m, spec_token_key(toks[x + 1])) is None);
                }
                if exists|x: int|
                    0 <= x < toks.len() && spec_resolve(
                        m,
                        spec_token_key(#[trigger] toks[x]),
                    ) is None {
                    let x = choose|x: int|
                        0 <= x < toks.len() && spec_resolve(
                            m,
                            spec_token_key(#[trigger] toks[x]),
                        ) is None;
                    assert(x != 0);
                    assert(rest[x - 1] == toks[x]);
                }
            },
            None => {
                assert(spec_resolve(m, spec_token_key(toks[0])) is None);
            },
        }
    }
}

/// Unresolved failure: the whole expansion returns an error exactly
/// when some token of the input has a key with neither a store entry
/// nor the escape; nothing is produced in that case.
pub proof fn lemma_expand_err(input: Seq<char>, m: Seq<(Seq<char>, Seq<char>)>)
    ensures
        spec_expand(input, m) is Err <==> exists|x: int|
            0 <= x < spec_tokens(input).len() && spec_resolve(
                m,
                spec_token_key(#[trigger] spec_tokens(input)[x]),
            ) is None,
{
    lemma_expand_tokens_err(input, m, spec_tokens(input));
}

/// Expands every bracketed token of `input` against the store, leftmost
/// first, replacing each resolved token globally in the working string.
/// Returns the fully substituted string, or the first unresolvable key
/// as an `UnresolvedShortcut` error and no output at all.
pub fn expand(input: &str, store: &StoreMap) -> (r: Result<String, StoreError>)
    ensures
        r is Ok <==> spec_expand(input@, store@) is Ok,
        r is Ok ==> r->Ok_0@ == spec_expand(input@, store@)->Ok_0,
        r is Err ==> (r->Err_0 matches StoreError::UnresolvedShortcut(k) && k@ == spec_expand(
            input@,
            store@,
        )->Err_0),
{
    let tokens = find_tokens(input);
    let mut cur = String::from_str(input);
    let n = tokens.len();
    let mut t: usize = 0;
    proof {
        lemma_tokens_shape(input@);
        assert(tokens.deep_view().skip(0) =~= tokens.deep_view());
    }
    while t < n
        invariant
            0 <= t <= n,
            n == tokens.len(),
            tokens.deep_view() == spec_tokens(input@),
            spec_expand_tokens(cur@, store@, tokens.deep_view().skip(t as int)) == spec_expand(
                input@,
                store@,
            ),
            forall|x: int|
                0 <= x < spec_tokens(input@).len() ==> (#[trigger] spec_tokens(input@)[x]).len()
                    >= 2,
        decreases n - t,
    {
        let ghost tail = tokens.deep_view().skip(t as int);
        proof {
            assert(tail[0] == tokens.deep_view()[t as int]);
            assert(tokens.deep_view()[t as int] == tokens[t as int]@);
            assert(tail.drop_first() =~= tokens.deep_view().skip(t as int + 1));
            assert(spec_tokens(input@)[t as int] == tokens[t as int]@);
        }
        let key = rm_braces(tokens[t].as_str());
        proof {
            assert(key@ == spec_token_key(tail[0]));
        }
        match resolve(store, key) {
            Some(v) => {
                cur = replace_all(cur.as_str(), tokens[t].as_str(), v.as_str());
            },
            None => {
                return Err(StoreError::UnresolvedShortcut(String::from_str(key)));
            },
        }
        t += 1;
    }
    proof {
        assert(tokens.deep_view().skip(n as int) =~= Seq::<Seq<char>>::empty());
    }
    Ok(cur)
}

/// The command line rejoined: the arguments in order with one single
/// space between each pair, no trailing space.
pub open spec fn spec_join(args: Seq<Seq<char>>) -> Seq<char>
    decreases args.len(),
{
    if args.len() == 0 {
        Seq::empty()
    } else if args.len() == 1 {
        args[0]
    } else {
        spec_join(args.drop_last()) + seq![' '] + args.last()
    }
}

pub proof fn lemma_space_literal()
    ensures
        " "@ == seq![' '],
{
    reveal_strlit(" ");
    assert(" "@ =~= seq![' ']);
}

/// Joins the arguments into the expander's input, one space between
/// each pair.
pub fn join_args(args: &Vec<String>) -> (r: String)
    ensures
        r@ == spec_join(args.deep_view()),
{
    let mut r = String::new();
    let n = args.len();
    let mut i: usize = 0;
    proof {
        assert(args.deep_view().subrange(0, 0) =~= Seq::<Seq<char>>::empty());
    }
    while i < n
        invariant
            0 <= i <= n,
            n == args.len(),
            r@ == spec_join(args.deep_view().subrange(0, i as int)),
        decreases n - i,
    {
        let ghost prev = r@;
        if i > 0 {
            r.append(" ");
        }
        r.append(args[i].as_str());
        proof {
            lemma_space_literal();
            let dv = args.deep_view();
            assert(dv[i as int] == args[i as int]@);
            let ext = dv.subrange(0, i as int + 1);
            assert(ext.drop_last() =~= dv.subrange(0, i as int));
            assert(ext.last() == dv[i as int]);
            if i == 0 {
                assert(r@ =~= ext[0]);
            }
        }
        i += 1;
    }
    proof {
        assert(args.deep_view().subrange(0, n as int) =~= args.deep_view());
    }
    r
}

/// The CLI default path: the arguments after the command name are
/// rejoined with single spaces and the result is expanded against the
/// store.
pub fn expand_args(args: &Vec<String>, store: &StoreMap) -> (r: Result<String, StoreError>)
    ensures
        r is Ok <==> spec_expand(spec_join(args.deep_view()), store@) is Ok,
        r is Ok ==> r->Ok_0@ == spec_expand(spec_join(args.deep_view()), store@)->Ok_0,
        r is Err ==> (r->Err_0 matches StoreError::UnresolvedShortcut(k) && k@ == spec_expand(
            spec_join(args.deep_view()),
            store@,
        )->Err_0),
{
    let joined = join_args(args);
    expand(joined.as_str(), store)
}

} // verus!
