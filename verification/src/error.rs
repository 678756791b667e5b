//! Diagnostics: what a failed match reports, and how sibling failures are merged
//! so that the one that got furthest wins.

use vstd::pervasive::unreached;
use vstd::prelude::*;
use vstd::string::StringExecFns;
use vstd::string::StringSliceAdditionalSpecFns;
use vstd::utf8::*;
use crate::outcome::Fallible;
use crate::text::{
    lemma_encoding_injective, lemma_line_end, lemma_line_start, lemma_precedes_total,
    lemma_precedes_transitive, line_end, line_start, same_text, slice, sorts_before,
    text_between, text_precedes,
};

verus! {

/// Why parsing failed.
///
/// `Source` is the kind of string the diagnostic holds: `&str` while it borrows
/// from the grammar and the input, `String` once it owns its text.
pub enum ParseError<Source> {
    /// The grammar refers to a rule it does not define.
    UnknownNonTerminal(Source),
    /// A rule was entered again and again without the input moving on, so it can
    /// never finish.
    LeftRecursion(Source),
    /// The input did not match at byte `idx`.
    BadMatchError {
        /// The line of the input that holds `idx`, without its line end.
        line: Source,
        /// The offset of `idx` within that line, in bytes.
        col: usize,
        /// The byte position at which the match failed.
        idx: usize,
        /// A sentence that names what was expected.
        msg: String,
        /// The literals and patterns that would have matched at `idx`, in
        /// ascending order and without repetition.
        terminals: Vec<Source>,
        /// The rules that were open when the match failed, outermost first.
        rules: Vec<Source>,
    },
}

/// The mathematical content of a [`ParseError`].
pub enum Diagnostic {
    UnknownNonTerminal(Seq<char>),
    LeftRecursion(Seq<char>),
    BadMatch {
        line: Seq<char>,
        col: int,
        idx: int,
        msg: Seq<char>,
        expected: Seq<Seq<char>>,
        rules: Seq<Seq<char>>,
    },
}

/// The texts of a sequence of strings.
pub open spec fn texts<S: View<V = Seq<char>>>(v: Seq<S>) -> Seq<Seq<char>> {
    v.map_values(|s: S| s@)
}

impl<Source: View<V = Seq<char>>> View for ParseError<Source> {
    type V = Diagnostic;

    open spec fn view(&self) -> Diagnostic {
        match self {
            ParseError::UnknownNonTerminal(name) => Diagnostic::UnknownNonTerminal(name@),
            ParseError::LeftRecursion(name) => Diagnostic::LeftRecursion(name@),
            ParseError::BadMatchError { line, col, idx, msg, terminals, rules } => Diagnostic::BadMatch {
                line: line@,
                col: *col as int,
                idx: *idx as int,
                msg: msg@,
                expected: texts(terminals@),
                rules: texts(rules@),
            },
        }
    }
}

/// The diagnostics of a sequence of errors.
pub open spec fn diagnostics<Source: View<V = Seq<char>>>(v: Seq<ParseError<Source>>) -> Seq<
    Diagnostic,
> {
    v.map_values(|e: ParseError<Source>| e@)
}

impl Diagnostic {
    /// A fault of the grammar itself, as opposed to a mismatch of the input.
    pub open spec fn is_fault(self) -> bool {
        !(self is BadMatch)
    }

    /// The byte position a mismatch points at.
    pub open spec fn position(self) -> int {
        match self {
            Diagnostic::BadMatch { idx, .. } => idx,
            _ => 0,
        }
    }

    /// What a mismatch expected at its position.
    pub open spec fn expectations(self) -> Seq<Seq<char>> {
        match self {
            Diagnostic::BadMatch { expected, .. } => expected,
            _ => Seq::empty(),
        }
    }
}

/// Strictly ascending: in order, and without repetition.
pub open spec fn ascending(s: Seq<Seq<char>>) -> bool {
    forall|i: int, j: int| 0 <= i < j < s.len() ==> text_precedes(#[trigger] s[i], #[trigger] s[j])
}

/// The ascending sequence `s` with `x` put in its place, unless it is there already.
pub open spec fn insert_sorted(s: Seq<Seq<char>>, x: Seq<char>) -> Seq<Seq<char>>
    decreases s.len(),
{
    if s.len() == 0 {
        seq![x]
    } else if s[0] == x {
        s
    } else if text_precedes(x, s[0]) {
        seq![x] + s
    } else {
        seq![s[0]] + insert_sorted(s.drop_first(), x)
    }
}

/// `acc` with the first `k` items of `xs` inserted in turn.
pub open spec fn insert_all(acc: Seq<Seq<char>>, xs: Seq<Seq<char>>, k: int) -> Seq<Seq<char>>
    decreases k,
{
    if k <= 0 {
        acc
    } else {
        insert_sorted(insert_all(acc, xs, k - 1), xs[k - 1])
    }
}

/// The items of `xs` as an ascending sequence without repetition.
pub open spec fn sorted_set(xs: Seq<Seq<char>>) -> Seq<Seq<char>> {
    insert_all(Seq::empty(), xs, xs.len() as int)
}

/// Inserting keeps a sequence ascending and adds exactly the new item to its content.
pub proof fn lemma_insert_sorted(s: Seq<Seq<char>>, x: Seq<char>)
    requires
        ascending(s),
    ensures
        ascending(insert_sorted(s, x)),
        insert_sorted(s, x).to_set() == s.to_set().insert(x),
        s.len() <= insert_sorted(s, x).len() <= s.len() + 1,
        insert_sorted(s, x).len() >= 1,
    decreases s.len(),
{
    let r = insert_sorted(s, x);
    if s.len() == 0 {
        assert(r.to_set() =~= s.to_set().insert(x)) by {
            assert forall|y: Seq<char>| r.to_set().contains(y) <==> s.to_set().insert(x).contains(
                y,
            ) by {
                if y == x {
                    assert(r[0] == x);
                }
            }
        }
    } else if s[0] == x {
        assert(r.to_set() =~= s.to_set().insert(x));
    } else if text_precedes(x, s[0]) {
        assert forall|i: int, j: int| 0 <= i < j < r.len() implies text_precedes(
            #[trigger] r[i],
            #[trigger] r[j],
        ) by {
            if i == 0 {
                if j > 1 {
                    assert(text_precedes(s[0], s[j - 1]));
                    lemma_precedes_transitive(
                        encode_utf8(x),
                        encode_utf8(s[0]),
                        encode_utf8(s[j - 1]),
                    );
                }
            } else {
                assert(text_precedes(s[i - 1], s[j - 1]));
            }
        }
        assert(r.to_set() =~= s.to_set().insert(x)) by {
            assert forall|y: Seq<char>| r.to_set().contains(y) <==> s.to_set().insert(x).contains(
                y,
            ) by {
                if y == x {
                    assert(r[0] == x);
                }
                if s.to_set().contains(y) {
                    let i = choose|i: int| 0 <= i < s.len() && s[i] == y;
                    assert(r[i + 1] == y);
                }
                if r.to_set().contains(y) {
                    let i = choose|i: int| 0 <= i < r.len() && r[i] == y;
                    if i > 0 {
                        assert(s[i - 1] == y);
                    }
                }
            }
        }
    } else {
        let tail = s.drop_first();
        assert(ascending(tail)) by {
            assert forall|i: int, j: int| 0 <= i < j < tail.len() implies text_precedes(
                #[trigger] tail[i],
                #[trigger] tail[j],
            ) by {
                assert(text_precedes(s[i + 1], s[j + 1]));
            }
        }
        lemma_insert_sorted(tail, x);
        let rest = insert_sorted(tail, x);
        // every item of `rest` is `x` or an item of `tail`, so `s[0]` precedes it
        assert forall|j: int| 0 <= j < rest.len() implies text_precedes(s[0], #[trigger] rest[j]) by {
            assert(rest.to_set().contains(rest[j]));
            assert(tail.to_set().insert(x).contains(rest[j]));
            if rest[j] == x {
                lemma_precedes_total(encode_utf8(x), encode_utf8(s[0]));
                if encode_utf8(x) == encode_utf8(s[0]) {
                    lemma_encoding_injective(x, s[0]);
                }
            } else {
                let i = choose|i: int| 0 <= i < tail.len() && tail[i] == rest[j];
                assert(text_precedes(s[0], s[i + 1]));
            }
        }
        assert forall|i: int, j: int| 0 <= i < j < r.len() implies text_precedes(
            #[trigger] r[i],
            #[trigger] r[j],
        ) by {
            if i == 0 {
                assert(r[j] == rest[j - 1]);
            } else {
                assert(text_precedes(rest[i - 1], rest[j - 1]));
            }
        }
        assert(r.to_set() =~= s.to_set().insert(x)) by {
            assert forall|y: Seq<char>| r.to_set().contains(y) <==> s.to_set().insert(x).contains(
                y,
            ) by {
                if r.to_set().contains(y) {
                    let i = choose|i: int| 0 <= i < r.len() && r[i] == y;
                    if i > 0 {
                        assert(rest.to_set().contains(rest[i - 1]));
                        if y != x {
                            let k = choose|k: int| 0 <= k < tail.len() && tail[k] == y;
                            assert(s[k + 1] == y);
                        }
                    } else {
                        assert(s[0] == y);
                    }
                }
                if s.to_set().insert(x).contains(y) {
                    if y == x {
                        assert(rest.to_set().contains(x));
                        let k = choose|k: int| 0 <= k < rest.len() && rest[k] == x;
                        assert(r[k + 1] == x);
                    } else {
                        let i = choose|i: int| 0 <= i < s.len() && s[i] == y;
                        if i == 0 {
                            assert(r[0] == y);
                        } else {
                            assert(tail[i - 1] == y);
                            assert(rest.to_set().contains(y));
                            let k = choose|k: int| 0 <= k < rest.len() && rest[k] == y;
                            assert(r[k + 1] == y);
                        }
                    }
                }
            }
        }
    }
}

/// Inserting several items keeps a sequence ascending and adds exactly those items.
pub proof fn lemma_insert_all(acc: Seq<Seq<char>>, xs: Seq<Seq<char>>, k: int)
    requires
        ascending(acc),
        0 <= k <= xs.len(),
    ensures
        ascending(insert_all(acc, xs, k)),
        insert_all(acc, xs, k).to_set() == acc.to_set().union(xs.subrange(0, k).to_set()),
        insert_all(acc, xs, k).len() >= acc.len(),
        k > 0 ==> insert_all(acc, xs, k).len() >= 1,
    decreases k,
{
    if k <= 0 {
        assert(xs.subrange(0, k).to_set() =~= Set::empty());
        assert(acc.to_set().union(Set::empty()) =~= acc.to_set());
    } else {
        lemma_insert_all(acc, xs, k - 1);
        let prev = insert_all(acc, xs, k - 1);
        lemma_insert_sorted(prev, xs[k - 1]);
        let a = xs.subrange(0, k - 1);
        let b = xs.subrange(0, k);
        assert(b.to_set() =~= a.to_set().insert(xs[k - 1])) by {
            assert forall|y: Seq<char>| b.to_set().contains(y) <==> a.to_set().insert(
                xs[k - 1],
            ).contains(y) by {
                if b.to_set().contains(y) {
                    let i = choose|i: int| 0 <= i < b.len() && b[i] == y;
                    if i < k - 1 {
                        assert(a[i] == y);
                    }
                }
                if a.to_set().contains(y) {
                    let i = choose|i: int| 0 <= i < a.len() && a[i] == y;
                    assert(b[i] == y);
                }
                if y == xs[k - 1] {
                    assert(b[k - 1] == y);
                }
            }
        }
        assert(insert_all(acc, xs, k).to_set() =~= acc.to_set().union(b.to_set()));
    }
}

/// Puts `x` in its place in the ascending vector `v`, unless it is there already.
pub fn insert_text<'a>(v: &mut Vec<&'a str>, x: &'a str)
    ensures
        texts(final(v)@) == insert_sorted(texts(old(v)@), x@),
{
    let ghost s = texts(v@);
    let mut i: usize = 0;
    assert(s.subrange(0, 0) + insert_sorted(s.subrange(0, s.len() as int), x@) =~= insert_sorted(
        s,
        x@,
    )) by {
        assert(s.subrange(0, s.len() as int) =~= s);
    }
    while i < v.len()
        invariant
            i <= v.len(),
            v@ == old(v)@,
            s == texts(v@),
            insert_sorted(s, x@) == s.subrange(0, i as int) + insert_sorted(
                s.subrange(i as int, s.len() as int),
                x@,
            ),
        decreases v.len() - i,
    {
        let ghost rest = s.subrange(i as int, s.len() as int);
        assert(rest[0] == v@[i as int]@);
        if same_text(v[i], x) {
            assert(s.subrange(0, i as int) + rest =~= s);
            return ;
        }
        if sorts_before(x, v[i]) {
            proof {
                assert(insert_sorted(rest, x@) == seq![x@] + rest);
                assert(s.subrange(0, i as int) + (seq![x@] + rest) =~= texts(
                    v@.insert(i as int, x),
                ));
            }
            v.insert(i, x);
            return ;
        }
        assert(rest.drop_first() =~= s.subrange(i + 1, s.len() as int));
        assert(s.subrange(0, i as int) + (seq![rest[0]] + insert_sorted(rest.drop_first(), x@))
            =~= s.subrange(0, i + 1) + insert_sorted(rest.drop_first(), x@));
        i = i + 1;
    }
    proof {
        let rest = s.subrange(i as int, s.len() as int);
        assert(insert_sorted(rest, x@) == seq![x@]);
        assert(s.subrange(0, i as int) + seq![x@] =~= texts(v@.push(x)));
    }
    v.push(x);
}

/// `x` between backticks.
pub open spec fn quoted(x: Seq<char>) -> Seq<char> {
    "`"@ + x + "`"@
}

/// The first `k` items of `xs`, each between backticks, separated by commas.
pub open spec fn listing(xs: Seq<Seq<char>>, k: int) -> Seq<char>
    decreases k,
{
    if k <= 0 {
        Seq::empty()
    } else if k == 1 {
        quoted(xs[0])
    } else {
        listing(xs, k - 1) + ", "@ + quoted(xs[k - 1])
    }
}

/// The sentence that names a set of expectations.
pub open spec fn message(xs: Seq<Seq<char>>) -> Seq<char> {
    if xs.len() == 0 {
        "(no expectations)"@
    } else if xs.len() == 1 {
        "Expected "@ + quoted(xs[0]) + " here."@
    } else {
        "Expected one of "@ + listing(xs, xs.len() - 1) + " or "@ + quoted(xs.last()) + "."@
    }
}

/// The mismatch at byte `at` of `src`: the line around `at`, the offset of `at` in
/// it, the sentence `msg`, the expectations as an ascending set, and the open rules.
pub open spec fn bad_match(
    src: Seq<u8>,
    at: int,
    msg: Seq<char>,
    terminals: Seq<Seq<char>>,
    rules: Seq<Seq<char>>,
) -> Diagnostic {
    Diagnostic::BadMatch {
        line: text_between(src, line_start(src, at), line_end(src, at)),
        col: at - line_start(src, at),
        idx: at,
        msg,
        expected: sorted_set(terminals),
        rules,
    }
}

/// Appends `x` between backticks.
pub fn push_quoted(s: &mut String, x: &str)
    ensures
        final(s)@ == old(s)@ + quoted(x@),
{
    s.append("`");
    s.append(x);
    s.append("`");
    assert(s@ =~= old(s)@ + quoted(x@));
}

/// The sentence that names the expectations `xs`.
pub fn expectation_message(xs: &Vec<&str>) -> (r: String)
    ensures
        r@ == message(texts(xs@)),
{
    let ghost t = texts(xs@);
    if xs.len() == 0 {
        String::from_str("(no expectations)")
    } else if xs.len() == 1 {
        let mut s = String::from_str("Expected ");
        push_quoted(&mut s, xs[0]);
        s.append(" here.");
        assert(t[0] == xs@[0]@);
        s
    } else {
        let mut s = String::from_str("Expected one of ");
        let last: usize = xs.len() - 1;
        push_quoted(&mut s, xs[0]);
        assert(t[0] == xs@[0]@);
        let mut k: usize = 1;
        while k < last
            invariant
                1 <= k <= last,
                last == xs.len() - 1,
                t == texts(xs@),
                s@ == "Expected one of "@ + listing(t, k as int),
            decreases last - k,
        {
            s.append(", ");
            push_quoted(&mut s, xs[k]);
            assert(t[k as int] == xs@[k as int]@);
            assert(s@ =~= "Expected one of "@ + listing(t, k + 1));
            k = k + 1;
        }
        s.append(" or ");
        push_quoted(&mut s, xs[last]);
        s.append(".");
        assert(t.last() == xs@[last as int]@);
        s
    }
}

impl<'a> ParseError<&'a str> {
    /// The mismatch at byte `idx` of `source`, with the line around it, the given
    /// sentence, the expectations in ascending order and the open rules.
    pub fn new_bad_match(
        source: &'a str,
        idx: &usize,
        msg: String,
        terminals: Vec<&'a str>,
        rules: Vec<&'a str>,
    ) -> (r: ParseError<&'a str>)
        requires
            *idx <= source.spec_bytes().len(),
        ensures
            r@ == bad_match(source.spec_bytes(), *idx as int, msg@, texts(terminals@), texts(rules@)),
    {
        let at: usize = *idx;
        let bytes = source.as_bytes();
        let ghost src = source.spec_bytes();
        proof {
            encode_utf8_valid_utf8(source@);
            lemma_line_start(src, at as int);
            lemma_line_end(src, at as int);
        }
        let mut first: usize = at;
        while first > 0 && bytes[first - 1] != 0x0a
            invariant
                first <= at <= bytes@.len(),
                bytes@ == src,
                line_start(src, at as int) == line_start(src, first as int),
            decreases first,
        {
            first = first - 1;
        }
        let mut past: usize = at;
        while past < bytes.len() && bytes[past] != 0x0a
            invariant
                at <= past <= bytes@.len(),
                bytes@ == src,
                line_end(src, at as int) == line_end(src, past as int),
            decreases bytes@.len() - past,
        {
            past = past + 1;
        }
        let line = slice(source, first, past);
        let mut set: Vec<&'a str> = Vec::new();
        let mut k: usize = 0;
        assert(texts(set@) =~= Seq::<Seq<char>>::empty());
        while k < terminals.len()
            invariant
                k <= terminals.len(),
                texts(set@) == insert_all(Seq::empty(), texts(terminals@), k as int),
            decreases terminals.len() - k,
        {
            insert_text(&mut set, terminals[k]);
            assert(texts(terminals@)[k as int] == terminals@[k as int]@);
            k = k + 1;
        }
        ParseError::BadMatchError { line, col: at - first, idx: at, msg, terminals: set, rules }
    }
}

/// The index of the first grammar fault among the first `k` diagnostics.
pub open spec fn first_fault(ds: Seq<Diagnostic>, k: int) -> Option<int>
    decreases k,
{
    if k <= 0 {
        None
    } else {
        match first_fault(ds, k - 1) {
            Some(i) => Some(i),
            None => if ds[k - 1].is_fault() {
                Some(k - 1)
            } else {
                None
            },
        }
    }
}

/// The greatest position among the first `k` diagnostics.
pub open spec fn furthest(ds: Seq<Diagnostic>, k: int) -> int
    decreases k,
{
    if k <= 0 {
        0
    } else {
        let m = furthest(ds, k - 1);
        if ds[k - 1].position() > m {
            ds[k - 1].position()
        } else {
            m
        }
    }
}

/// The index of the first of the first `k` diagnostics that sits at position `at`.
pub open spec fn first_at(ds: Seq<Diagnostic>, at: int, k: int) -> Option<int>
    decreases k,
{
    if k <= 0 {
        None
    } else {
        match first_at(ds, at, k - 1) {
            Some(i) => Some(i),
            None => if ds[k - 1].position() == at {
                Some(k - 1)
            } else {
                None
            },
        }
    }
}

/// Everything that those of the first `k` diagnostics that sit at position `at`
/// expected there, as an ascending set.
pub open spec fn expected_at(ds: Seq<Diagnostic>, at: int, k: int) -> Seq<Seq<char>>
    decreases k,
{
    if k <= 0 {
        Seq::empty()
    } else {
        let acc = expected_at(ds, at, k - 1);
        if ds[k - 1].position() == at {
            insert_all(acc, ds[k - 1].expectations(), ds[k - 1].expectations().len() as int)
        } else {
            acc
        }
    }
}

/// The one diagnostic that stands for a non-empty list of them.
///
/// A grammar fault wins at once: the first one is the result. Otherwise the result
/// sits at the greatest position any of them reached, expects everything that was
/// expected at that position, says so in its sentence, and takes line, column and
/// open rules from the first diagnostic at that position.
pub open spec fn merged(ds: Seq<Diagnostic>) -> Diagnostic {
    let n = ds.len() as int;
    match first_fault(ds, n) {
        Some(i) => ds[i],
        None => {
            let at = furthest(ds, n);
            let expected = expected_at(ds, at, n);
            let lead = ds[first_at(ds, at, n).unwrap()];
            Diagnostic::BadMatch {
                line: lead->line,
                col: lead->col,
                idx: at,
                msg: message(expected),
                expected,
                rules: lead->rules,
            }
        },
    }
}

/// What collecting a list of diagnostics yields: nothing for an empty list, the
/// first grammar fault as a failure, and otherwise the merged diagnostic, unless
/// it expects nothing.
pub open spec fn collected(ds: Seq<Diagnostic>) -> Fallible<Option<Diagnostic>, Diagnostic> {
    if ds.len() == 0 {
        Fallible::Success(None)
    } else if first_fault(ds, ds.len() as int) is Some {
        Fallible::Failure(merged(ds))
    } else if merged(ds).expectations().len() == 0 {
        Fallible::Success(None)
    } else {
        Fallible::Success(Some(merged(ds)))
    }
}

/// The content of what `collect_furthest` returns.
pub open spec fn collected_view<'a>(
    r: Fallible<Option<ParseError<&'a str>>, ParseError<&'a str>>,
) -> Fallible<Option<Diagnostic>, Diagnostic> {
    match r {
        Fallible::Success(None) => Fallible::Success(None),
        Fallible::Success(Some(e)) => Fallible::Success(Some(e@)),
        Fallible::Recovered(None, e) => Fallible::Recovered(None, e@),
        Fallible::Recovered(Some(d), e) => Fallible::Recovered(Some(d@), e@),
        Fallible::Failure(e) => Fallible::Failure(e@),
    }
}

/// Where the first fault is, nothing before it is one.
pub proof fn lemma_first_fault(ds: Seq<Diagnostic>, k: int)
    requires
        0 <= k <= ds.len(),
    ensures
        match first_fault(ds, k) {
            Some(i) => 0 <= i < k && ds[i].is_fault() && forall|j: int|
                0 <= j < i ==> !(#[trigger] ds[j]).is_fault(),
            None => forall|j: int| 0 <= j < k ==> !(#[trigger] ds[j]).is_fault(),
        },
    decreases k,
{
    if k > 0 {
        lemma_first_fault(ds, k - 1);
    }
}

/// The greatest position is reached by some diagnostic and exceeded by none, and
/// `first_at` finds the first that reaches it.
pub proof fn lemma_furthest(ds: Seq<Diagnostic>, k: int)
    requires
        0 < k <= ds.len(),
        forall|j: int| 0 <= j < k ==> (#[trigger] ds[j]).position() >= 0,
    ensures
        forall|j: int| 0 <= j < k ==> (#[trigger] ds[j]).position() <= furthest(ds, k),
        first_at(ds, furthest(ds, k), k) is Some,
    decreases k,
{
    if k > 1 {
        lemma_furthest(ds, k - 1);
    } else {
        assert(furthest(ds, 0) == 0);
        assert(first_at(ds, furthest(ds, k), 0) is None);
    }
    let at = furthest(ds, k);
    if at != furthest(ds, k - 1) {
        assert(ds[k - 1].position() == at);
    }
    assert(first_at(ds, at, k - 1) is Some || ds[k - 1].position() == at);
}

/// Where `first_at` finds a diagnostic, it sits at the position asked for and is the
/// first to do so; where it finds none, there is none.
pub proof fn lemma_first_at(ds: Seq<Diagnostic>, at: int, k: int)
    requires
        0 <= k <= ds.len(),
    ensures
        match first_at(ds, at, k) {
            Some(i) => 0 <= i < k && ds[i].position() == at && forall|j: int|
                0 <= j < i ==> (#[trigger] ds[j]).position() != at,
            None => forall|j: int| 0 <= j < k ==> (#[trigger] ds[j]).position() != at,
        },
    decreases k,
{
    if k > 0 {
        lemma_first_at(ds, at, k - 1);
    }
}

/// The expectations gathered at a position are ascending and hold exactly what the
/// diagnostics at that position expected.
pub proof fn lemma_expected_at(ds: Seq<Diagnostic>, at: int, k: int)
    requires
        0 <= k <= ds.len(),
    ensures
        ascending(expected_at(ds, at, k)),
        forall|x: Seq<char>| #[trigger]
            expected_at(ds, at, k).to_set().contains(x) <==> exists|j: int|
                0 <= j < k && (#[trigger] ds[j]).position() == at && ds[j].expectations().to_set().contains(x),
    decreases k,
{
    if k <= 0 {
        assert(expected_at(ds, at, k).to_set() =~= Set::empty());
    } else {
        lemma_expected_at(ds, at, k - 1);
        let acc = expected_at(ds, at, k - 1);
        let d = ds[k - 1];
        if d.position() == at {
            let e = d.expectations();
            lemma_insert_all(acc, e, e.len() as int);
            assert(e.subrange(0, e.len() as int) =~= e);
            assert forall|x: Seq<char>| #[trigger]
                expected_at(ds, at, k).to_set().contains(x) <==> exists|j: int|
                    0 <= j < k && (#[trigger] ds[j]).position() == at && ds[j].expectations().to_set().contains(x) by {
                if expected_at(ds, at, k).to_set().contains(x) {
                    if acc.to_set().contains(x) {
                        let j = choose|j: int|
                            0 <= j < k - 1 && (#[trigger] ds[j]).position() == at && ds[j].expectations().to_set().contains(x);
                        assert(0 <= j < k && ds[j].position() == at);
                    } else {
                        assert(e.to_set().contains(x));
                        assert(ds[k - 1].position() == at);
                    }
                }
                if exists|j: int|
                    0 <= j < k && (#[trigger] ds[j]).position() == at && ds[j].expectations().to_set().contains(x) {
                    let j = choose|j: int|
                        0 <= j < k && (#[trigger] ds[j]).position() == at && ds[j].expectations().to_set().contains(x);
                    if j < k - 1 {
                        assert(acc.to_set().contains(x));
                    }
                }
            }
        } else {
            assert forall|x: Seq<char>| #[trigger]
                expected_at(ds, at, k).to_set().contains(x) <==> exists|j: int|
                    0 <= j < k && (#[trigger] ds[j]).position() == at && ds[j].expectations().to_set().contains(x) by {
                if acc.to_set().contains(x) {
                    let j = choose|j: int|
                        0 <= j < k - 1 && (#[trigger] ds[j]).position() == at && ds[j].expectations().to_set().contains(x);
                    assert(0 <= j < k && ds[j].position() == at);
                }
                if exists|j: int|
                    0 <= j < k && (#[trigger] ds[j]).position() == at && ds[j].expectations().to_set().contains(x) {
                    let j = choose|j: int|
                        0 <= j < k && (#[trigger] ds[j]).position() == at && ds[j].expectations().to_set().contains(x);
                    assert(j < k - 1);
                }
            }
        }
    }
}

/// The furthest failure wins: among mismatches, the merged diagnostic sits at a
/// position that one of them reached and none of them exceeded, and it expects
/// exactly what was expected at that position, in ascending order.
pub proof fn lemma_merged_is_furthest(ds: Seq<Diagnostic>)
    requires
        ds.len() > 0,
        forall|j: int| 0 <= j < ds.len() ==> !(#[trigger] ds[j]).is_fault() && ds[j].position() >= 0,
    ensures
        merged(ds) is BadMatch,
        forall|j: int| 0 <= j < ds.len() ==> (#[trigger] ds[j]).position() <= merged(ds).position(),
        exists|j: int| 0 <= j < ds.len() && (#[trigger] ds[j]).position() == merged(ds).position(),
        ascending(merged(ds).expectations()),
        forall|x: Seq<char>| #[trigger]
            merged(ds).expectations().to_set().contains(x) <==> exists|j: int|
                0 <= j < ds.len() && (#[trigger] ds[j]).position() == merged(ds).position()
                    && ds[j].expectations().to_set().contains(x),
{
    let n = ds.len() as int;
    lemma_first_fault(ds, n);
    lemma_furthest(ds, n);
    let at = furthest(ds, n);
    lemma_first_at(ds, at, n);
    lemma_expected_at(ds, at, n);
    let i = first_at(ds, at, n).unwrap();
    assert(ds[i].position() == merged(ds).position());
}

/// A grammar fault is never merged away: the first one in the list is the result.
pub proof fn lemma_merged_keeps_fault(ds: Seq<Diagnostic>, i: int)
    requires
        0 <= i < ds.len(),
        ds[i].is_fault(),
    ensures
        merged(ds).is_fault(),
        exists|j: int| 0 <= j <= i && ds[j] == merged(ds),
{
    lemma_first_fault(ds, ds.len() as int);
    let j = first_fault(ds, ds.len() as int).unwrap();
    if j > i {
        assert(!ds[i].is_fault());
    }
    assert(ds[j] == merged(ds));
}

/// Once a fault is found among the first `k` diagnostics, looking further finds
/// the same one.
proof fn lemma_first_fault_extends(ds: Seq<Diagnostic>, k: int, n: int)
    requires
        0 <= k <= n,
        first_fault(ds, k) is Some,
    ensures
        first_fault(ds, n) == first_fault(ds, k),
    decreases n - k,
{
    if k < n {
        lemma_first_fault_extends(ds, k, n - 1);
    }
}

/// Once a diagnostic at `at` is found among the first `k`, looking further finds
/// the same one.
proof fn lemma_first_at_extends(ds: Seq<Diagnostic>, at: int, k: int, n: int)
    requires
        0 <= k <= n,
        first_at(ds, at, k) is Some,
    ensures
        first_at(ds, at, n) == first_at(ds, at, k),
    decreases n - k,
{
    if k < n {
        lemma_first_at_extends(ds, at, k, n - 1);
    }
}

impl<'a> ParseError<&'a str> {
    /// Whether this is a fault of the grammar rather than a mismatch of the input.
    pub fn is_fault(&self) -> (r: bool)
        ensures
            r == self@.is_fault(),
    {
        match self {
            ParseError::BadMatchError { .. } => false,
            _ => true,
        }
    }

    /// Whether this diagnostic sits at byte position `at`.
    pub fn sits_at(&self, at: usize) -> (r: bool)
        ensures
            r == (self@.position() == at),
    {
        match self {
            ParseError::BadMatchError { idx, .. } => *idx == at,
            _ => at == 0,
        }
    }

    /// Merges the diagnostics of sibling attempts into one: nothing for an empty
    /// list, the first grammar fault as a failure, and otherwise the diagnostic of
    /// the furthest position with everything that was expected there, unless
    /// nothing was.
    pub fn collect_furthest(errors: Vec<ParseError<&'a str>>) -> (r: Fallible<
        Option<ParseError<&'a str>>,
        ParseError<&'a str>,
    >)
        ensures
            collected_view(r) == collected(diagnostics(errors@)),
    {
        let ghost ds = diagnostics(errors@);
        let mut pool = errors;
        let n: usize = pool.len();
        if n == 0 {
            return Fallible::Success(None);
        }
        let mut i: usize = 0;
        while i < n
            invariant
                i <= n,
                n == pool.len(),
                ds == diagnostics(pool@),
                ds == diagnostics(errors@),
                first_fault(ds, i as int) is None,
            decreases n - i,
        {
            assert(ds[i as int] == pool@[i as int]@);
            if pool[i].is_fault() {
                proof {
                    assert(first_fault(ds, i + 1) == Some(i as int));
                    lemma_first_fault_extends(ds, i + 1, n as int);
                }
                let e = pool.remove(i);
                assert(e@ == merged(ds));
                return Fallible::Failure(e);
            }
            i = i + 1;
        }
        let mut max: usize = 0;
        let mut k: usize = 0;
        while k < n
            invariant
                k <= n,
                n == pool.len(),
                ds == diagnostics(pool@),
                max == furthest(ds, k as int),
            decreases n - k,
        {
            assert(ds[k as int] == pool@[k as int]@);
            match &pool[k] {
                ParseError::BadMatchError { idx, .. } => {
                    if *idx > max {
                        max = *idx;
                    }
                },
                _ => {},
            }
            k = k + 1;
        }
        let mut set: Vec<&'a str> = Vec::new();
        assert(texts(set@) =~= Seq::<Seq<char>>::empty());
        k = 0;
        while k < n
            invariant
                k <= n,
                n == pool.len(),
                ds == diagnostics(pool@),
                texts(set@) == expected_at(ds, max as int, k as int),
            decreases n - k,
        {
            assert(ds[k as int] == pool@[k as int]@);
            match &pool[k] {
                ParseError::BadMatchError { idx, terminals, .. } => {
                    if *idx == max {
                        let ghost acc = texts(set@);
                        let mut j: usize = 0;
                        while j < terminals.len()
                            invariant
                                j <= terminals.len(),
                                texts(set@) == insert_all(acc, texts(terminals@), j as int),
                            decreases terminals.len() - j,
                        {
                            insert_text(&mut set, terminals[j]);
                            assert(texts(terminals@)[j as int] == terminals@[j as int]@);
                            j = j + 1;
                        }
                    }
                },
                _ => {},
            }
            k = k + 1;
        }
        proof {
            lemma_first_fault(ds, n as int);
            assert forall|j: int| 0 <= j < ds.len() implies (#[trigger] ds[j]).position() >= 0 by {
                assert(ds[j] == pool@[j]@);
            }
            lemma_furthest(ds, n as int);
        }
        if set.len() == 0 {
            return Fallible::Success(None);
        }
        let msg = expectation_message(&set);
        let mut lead: usize = 0;
        while lead < n && !pool[lead].sits_at(max)
            invariant
                lead <= n,
                n == pool.len(),
                ds == diagnostics(pool@),
                first_at(ds, max as int, lead as int) is None,
                first_at(ds, max as int, n as int) is Some,
            decreases n - lead,
        {
            assert(ds[lead as int] == pool@[lead as int]@);
            lead = lead + 1;
        }
        proof {
            assert(ds[lead as int] == pool@[lead as int]@);
            assert(first_at(ds, max as int, lead + 1) == Some(lead as int));
            lemma_first_at_extends(ds, max as int, lead + 1, n as int);
        }
        match pool.remove(lead) {
            ParseError::BadMatchError { line, col, idx, rules, .. } => Fallible::Success(
                Some(ParseError::BadMatchError { line, col, idx, msg, terminals: set, rules }),
            ),
            _ => unreached(),
        }
    }
}

/// `n` spaces.
pub open spec fn spaces(n: int) -> Seq<char>
    decreases n,
{
    if n <= 0 {
        Seq::empty()
    } else {
        spaces(n - 1) + " "@
    }
}

/// The text that std's `{:?}` gives for a list of strings with the given texts:
/// the texts between brackets, separated by commas, each between double quotes
/// and with what would not show in it escaped.
pub uninterp spec fn debug_list(names: Seq<Seq<char>>) -> Seq<char>;

/// The lines in which a mismatch is shown: its sentence, the line it points into, a
/// caret under the column it points at, and the list of the open rules.
pub open spec fn laid_out(msg: Seq<char>, line: Seq<char>, col: int, list: Seq<char>) -> Seq<char> {
    msg + "\n"@ + line + "\n"@ + spaces(col) + "^\n"@ + "rules: "@ + list + "\n"@
}

/// The text in which a diagnostic is shown: for a mismatch its sentence, the line
/// it points into, a caret under the byte it points at, and the open rules as std
/// shows a list of strings, each on a line of its own; for a grammar fault one
/// line that names the rule.
pub open spec fn rendered(d: Diagnostic) -> Seq<char> {
    match d {
        Diagnostic::UnknownNonTerminal(name) => "Grammar Error - Unknown rule: "@ + quoted(name),
        Diagnostic::LeftRecursion(name) => "Grammar Error - Left recursion in rule: "@ + quoted(
            name,
        ),
        Diagnostic::BadMatch { line, col, msg, rules, .. } => laid_out(
            msg,
            line,
            col,
            debug_list(rules),
        ),
    }
}

/// Formats a list of strings with std's `format!` and `{:?}`.
///
/// Believed: the text depends on the texts of the strings alone. Nothing is
/// believed of what it holds.
#[verifier::external_body]
fn debug_names(names: &Vec<&str>) -> (r: String)
    ensures
        r@ == debug_list(texts(names@)),
{
    format!("{:?}", names)
}

/// The lines in which a mismatch is shown, given the list of the open rules as it
/// is to be shown.
pub fn layout(msg: &str, line: &str, col: usize, list: &str) -> (r: String)
    ensures
        r@ == laid_out(msg@, line@, col as int, list@),
{
    let mut s = String::from_str(msg);
    s.append("\n");
    s.append(line);
    s.append("\n");
    let ghost head = s@;
    let mut i: usize = 0;
    assert(s@ =~= head + spaces(0));
    while i < col
        invariant
            i <= col,
            s@ == head + spaces(i as int),
        decreases col - i,
    {
        s.append(" ");
        assert(s@ =~= head + spaces(i + 1));
        i = i + 1;
    }
    s.append("^\n");
    s.append("rules: ");
    s.append(list);
    s.append("\n");
    assert(s@ =~= laid_out(msg@, line@, col as int, list@));
    s
}

impl<'a> ParseError<&'a str> {
    /// The text in which this diagnostic is shown.
    pub fn render(&self) -> (r: String)
        ensures
            r@ == rendered(self@),
    {
        match self {
            ParseError::UnknownNonTerminal(name) => {
                let mut s = String::from_str("Grammar Error - Unknown rule: ");
                push_quoted(&mut s, name);
                s
            },
            ParseError::LeftRecursion(name) => {
                let mut s = String::from_str("Grammar Error - Left recursion in rule: ");
                push_quoted(&mut s, name);
                s
            },
            ParseError::BadMatchError { line, col, msg, rules, .. } => {
                let list = debug_names(rules);
                layout(msg.as_str(), line, *col, list.as_str())
            },
        }
    }
}

/// Owned copies of a list of strings.
fn owned_texts(v: &Vec<&str>) -> (r: Vec<String>)
    ensures
        texts(r@) == texts(v@),
{
    let mut r: Vec<String> = Vec::new();
    let mut i: usize = 0;
    while i < v.len()
        invariant
            i <= v.len(),
            r@.len() == i,
            texts(r@) == texts(v@.subrange(0, i as int)),
        decreases v.len() - i,
    {
        let ghost before = r@;
        r.push(String::from_str(v[i]));
        assert forall|j: int| 0 <= j <= i implies texts(r@)[j] == texts(v@.subrange(0, i + 1))[j] by {
            if j < i {
                assert(texts(before)[j] == texts(v@.subrange(0, i as int))[j]);
            }
        }
        assert(texts(r@) =~= texts(v@.subrange(0, i + 1)));
        i = i + 1;
    }
    assert(v@.subrange(0, v@.len() as int) =~= v@);
    r
}

/// The same strings, borrowed.
fn borrowed_texts<'b>(v: &'b Vec<String>) -> (r: Vec<&'b str>)
    ensures
        texts(r@) == texts(v@),
{
    let mut r: Vec<&'b str> = Vec::new();
    let mut i: usize = 0;
    while i < v.len()
        invariant
            i <= v.len(),
            r@.len() == i,
            texts(r@) == texts(v@.subrange(0, i as int)),
        decreases v.len() - i,
    {
        let ghost before = r@;
        r.push(v[i].as_str());
        assert forall|j: int| 0 <= j <= i implies texts(r@)[j] == texts(v@.subrange(0, i + 1))[j] by {
            if j < i {
                assert(texts(before)[j] == texts(v@.subrange(0, i as int))[j]);
            }
        }
        assert(texts(r@) =~= texts(v@.subrange(0, i + 1)));
        i = i + 1;
    }
    assert(v@.subrange(0, v@.len() as int) =~= v@);
    r
}

impl ParseError<String> {
    /// The text in which this diagnostic is shown.
    pub fn render(&self) -> (r: String)
        ensures
            r@ == rendered(self@),
    {
        match self {
            ParseError::UnknownNonTerminal(name) => {
                let mut s = String::from_str("Grammar Error - Unknown rule: ");
                push_quoted(&mut s, name.as_str());
                s
            },
            ParseError::LeftRecursion(name) => {
                let mut s = String::from_str("Grammar Error - Left recursion in rule: ");
                push_quoted(&mut s, name.as_str());
                s
            },
            ParseError::BadMatchError { line, col, msg, rules, .. } => {
                let names = borrowed_texts(rules);
                let list = debug_names(&names);
                layout(msg.as_str(), line.as_str(), *col, list.as_str())
            },
        }
    }
}

/// The conversion is stated over contents, by the contract of `from` itself: no
/// value of the owning kind is singled out for a given diagnostic.
impl<'a> vstd::std_specs::convert::FromSpecImpl<ParseError<&'a str>> for ParseError<String> {
    open spec fn obeys_from_spec() -> bool {
        false
    }

    open spec fn from_spec(value: ParseError<&'a str>) -> ParseError<String> {
        arbitrary()
    }
}

impl<'a> From<ParseError<&'a str>> for ParseError<String> {
    /// The same diagnostic, owning its text.
    fn from(value: ParseError<&'a str>) -> (r: ParseError<String>)
        ensures
            r@ == value@,
    {
        match value {
            ParseError::UnknownNonTerminal(name) => ParseError::UnknownNonTerminal(
                String::from_str(name),
            ),
            ParseError::LeftRecursion(name) => ParseError::LeftRecursion(String::from_str(name)),
            ParseError::BadMatchError { line, col, idx, msg, terminals, rules } => {
                let terminals = owned_texts(&terminals);
                let rules = owned_texts(&rules);
                ParseError::BadMatchError {
                    line: String::from_str(line),
                    col,
                    idx,
                    msg,
                    terminals,
                    rules,
                }
            },
        }
    }
}

} // verus!
