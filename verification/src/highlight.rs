//! Showing a source line with parts of it coloured and marked underneath.

use vstd::prelude::*;
use vstd::string::{StrSliceExecFns, StringExecFns};

verus! {

/// The colour a stretch of text is shown in.
#[derive(Clone, Copy, Debug, PartialEq, Eq)]
pub enum TextColour {
    Plain,
    Red,
    Green,
}

/// A stretch of text, the colour to show it in, and the character to mark it with
/// on the line underneath.
pub struct Modification<'a> {
    pub string: &'a str,
    pub colour: TextColour,
    pub underline: char,
}

/// `text` as shown in `colour`: as it is, or between the escape sequences that
/// switch green on and off.
pub open spec fn painted(text: Seq<char>, colour: TextColour) -> Seq<char> {
    if colour == TextColour::Green {
        "\x1b[32m"@ + text + "\x1b[0m"@
    } else {
        text
    }
}

/// `n` times the character `mark`.
pub open spec fn marks(n: nat, mark: char) -> Seq<char> {
    Seq::new(n, |i: int| mark)
}

/// The first `k` stretches, each in its colour, one after the other.
pub open spec fn shown<'a>(ms: Seq<Modification<'a>>, k: int) -> Seq<char>
    decreases k,
{
    if k <= 0 {
        Seq::empty()
    } else {
        shown(ms, k - 1) + painted(ms[k - 1].string@, ms[k - 1].colour)
    }
}

/// The marks under the first `k` stretches: one mark per character, in the
/// stretch's colour.
pub open spec fn underlined<'a>(ms: Seq<Modification<'a>>, k: int) -> Seq<char>
    decreases k,
{
    if k <= 0 {
        Seq::empty()
    } else {
        underlined(ms, k - 1) + painted(
            marks(ms[k - 1].string@.len(), ms[k - 1].underline),
            ms[k - 1].colour,
        )
    }
}

/// Calls `String::push`, which appends one character to the string.
#[verifier::external_body]
fn push_char(s: &mut String, c: char)
    ensures
        final(s)@ == old(s)@.push(c),
{
    s.push(c)
}

/// Appends `text` in `colour`.
fn paint(s: &mut String, text: &str, colour: TextColour)
    requires
        colour != TextColour::Red,
    ensures
        final(s)@ == old(s)@ + painted(text@, colour),
{
    match colour {
        TextColour::Green => {
            s.append("\x1b[32m");
            s.append(text);
            s.append("\x1b[0m");
            assert(s@ =~= old(s)@ + painted(text@, colour));
        },
        _ => {
            s.append(text);
        },
    }
}

/// The source line and the line of marks under it, for the given stretches in
/// order. Red is not among the colours that can be shown.
pub fn modify_source<'a>(modifications: &Vec<Modification<'a>>) -> (r: (String, String))
    requires
        forall|i: int|
            0 <= i < modifications@.len() ==> (#[trigger] modifications@[i]).colour
                != TextColour::Red,
    ensures
        r.0@ == shown(modifications@, modifications@.len() as int),
        r.1@ == underlined(modifications@, modifications@.len() as int),
{
    let mut text = String::new();
    let mut under = String::new();
    let mut k: usize = 0;
    while k < modifications.len()
        invariant
            k <= modifications.len(),
            forall|i: int|
                0 <= i < modifications@.len() ==> (#[trigger] modifications@[i]).colour
                    != TextColour::Red,
            text@ == shown(modifications@, k as int),
            under@ == underlined(modifications@, k as int),
        decreases modifications.len() - k,
    {
        let m = &modifications[k];
        paint(&mut text, m.string, m.colour);
        let n: usize = m.string.unicode_len();
        let mut line = String::new();
        let mut i: usize = 0;
        while i < n
            invariant
                i <= n,
                line@ == marks(i as nat, m.underline),
            decreases n - i,
        {
            push_char(&mut line, m.underline);
            assert(line@ =~= marks((i + 1) as nat, m.underline));
            i = i + 1;
        }
        paint(&mut under, line.as_str(), m.colour);
        k = k + 1;
    }
    (text, under)
}

} // verus!
