//! Differences between two texts, line by line.

use vstd::prelude::*;

use crate::subst;
use crate::text;
use crate::text::{push_decimal, str_eq};

verus! {

// ---------- Lines ----------

/// A line that a line feed ended, without the carriage return before it.
pub open spec fn ended(s: Seq<char>) -> Seq<char> {
    if s.len() > 0 && s.last() == '\r' {
        s.drop_last()
    } else {
        s
    }
}

/// The lines of a text. A line feed ends a line, alone or behind a carriage
/// return. The end of the last line may be missing; a carriage return at the
/// end of the text then stays.
pub open spec fn lines(s: Seq<char>) -> Seq<Seq<char>>
    decreases s.len(),
{
    let k = subst::first_index(s, '\n');
    if s.len() == 0 {
        Seq::empty()
    } else if k < s.len() {
        seq![ended(s.take(k as int))] + lines(s.skip(k as int + 1))
    } else {
        seq![s]
    }
}

/// The text of a line under way, of which a carriage return is held back.
spec fn under_way(line: Seq<char>, held: bool) -> Seq<char> {
    if held {
        line.push('\r')
    } else {
        line
    }
}

/// A line feed behind text without one ends the first line.
proof fn lemma_first_line(line: Seq<char>, rest: Seq<char>)
    requires
        !line.contains('\n'),
        rest.len() > 0,
        rest[0] == '\n',
    ensures
        lines(line + rest) == seq![ended(line)] + lines(rest.skip(1)),
{
    let s = line + rest;
    assert forall|j: int| 0 <= j < line.len() implies s[j] != '\n' by {
        assert(s[j] == line[j]);
        if s[j] == '\n' {
            assert(line.contains('\n'));
        }
    }
    assert(s[line.len() as int] == '\n');
    subst::lemma_first_index_at(s, '\n', line.len() as int);
    assert(s.take(line.len() as int) =~= line);
    assert(s.skip(line.len() as int + 1) =~= rest.skip(1));
}

/// Text without a line feed is one line, or none.
proof fn lemma_last_line(line: Seq<char>)
    requires
        !line.contains('\n'),
    ensures
        lines(line) == if line.len() == 0 {
            Seq::empty()
        } else {
            seq![line]
        },
{
    assert forall|j: int| 0 <= j < line.len() implies line[j] != '\n' by {
        if line[j] == '\n' {
            assert(line.contains('\n'));
        }
    }
    subst::lemma_first_index_at(line, '\n', line.len() as int);
}

/// The lines of `s`.
pub fn split_lines(s: &str) -> (r: Vec<String>)
    ensures
        text::strings_view(r@) == lines(s@),
{
    let n: usize = s.unicode_len();
    let mut out: Vec<String> = Vec::new();
    let mut line = String::new();
    let mut held = false;
    let mut i: usize = 0;
    proof {
        assert(text::strings_view(out@) =~= Seq::<Seq<char>>::empty());
        assert(under_way(line@, held) + s@.skip(0) =~= s@);
        assert(text::strings_view(out@) + lines(s@) =~= lines(s@));
    }
    while i < n
        invariant
            i <= n,
            n == s@.len(),
            !line@.contains('\n'),
            !held ==> line@.len() == 0 || line@.last() != '\r',
            lines(s@) == text::strings_view(out@) + lines(
                under_way(line@, held) + s@.skip(i as int),
            ),
        decreases n - i,
    {
        let c = s.get_char(i);
        let ghost before = out@;
        let ghost was = line@;
        let ghost full = under_way(line@, held);
        let ghost rest = s@.skip(i as int);
        assert(rest[0] == c);
        assert(rest.skip(1) =~= s@.skip(i + 1));
        assert(!full.contains('\n')) by {
            if full.contains('\n') {
                let j = choose|j: int| 0 <= j < full.len() && full[j] == '\n';
                assert(line@[j] == '\n');
            }
        }
        if c == '\n' {
            proof {
                lemma_first_line(full, rest);
                assert(ended(full) =~= line@);
            }
            out.push(line);
            line = String::new();
            held = false;
            proof {
                assert(text::strings_view(out@) =~= text::strings_view(before).push(was));
                assert(under_way(line@, held) + s@.skip(i + 1) =~= s@.skip(i + 1));
                assert(text::strings_view(before) + (seq![was] + lines(s@.skip(i + 1)))
                    =~= text::strings_view(out@) + lines(s@.skip(i + 1)));
            }
        } else {
            if held {
                line.push('\r');
            }
            if c == '\r' {
                held = true;
            } else {
                line.push(c);
                held = false;
            }
            proof {
                assert(under_way(line@, held) =~= full.push(c));
                assert(full.push(c) + s@.skip(i + 1) =~= full + rest);
                assert(!full.push(c).contains('\n')) by {
                    if full.push(c).contains('\n') {
                        let j = choose|j: int|
                            0 <= j < full.push(c).len() && full.push(c)[j] == '\n';
                        assert(full[j] == '\n');
                    }
                }
                if line@.contains('\n') {
                    let j = choose|j: int| 0 <= j < line@.len() && line@[j] == '\n';
                    assert(full.push(c)[j] == '\n');
                }
            }
        }
        i += 1;
    }
    let ghost full = under_way(line@, held);
    proof {
        assert(full + s@.skip(i as int) =~= full);
        if full.contains('\n') {
            let j = choose|j: int| 0 <= j < full.len() && full[j] == '\n';
            assert(line@[j] == '\n');
        }
        lemma_last_line(full);
    }
    if held {
        line.push('\r');
    }
    let ghost before = out@;
    if line.as_str().unicode_len() > 0 {
        out.push(line);
        assert(text::strings_view(out@) =~= text::strings_view(before) + seq![full]);
    } else {
        assert(text::strings_view(out@) + Seq::<Seq<char>>::empty() =~= text::strings_view(out@));
    }
    out
}

// ---------- Differences ----------

/// What `{:?}` writes for a string.
pub uninterp spec fn debug_text(s: Seq<char>) -> Seq<char>;

/// `s` as `std::fmt::Debug` for `str` writes it, through `format!`. Only that
/// the characters of the string fix what is written is claimed; which of them
/// are escaped is not stated.
#[verifier::external_body]
fn debug_string(s: &str) -> (r: String)
    ensures
        r@ == debug_text(s@),
{
    format!("{:?}", s)
}

/// What `{:?}` writes for each line.
pub open spec fn shown(ls: Seq<Seq<char>>) -> Seq<Seq<char>> {
    Seq::new(ls.len(), |i: int| debug_text(ls[i]))
}

/// Line `i`, if there is one.
pub open spec fn line_at(ls: Seq<Seq<char>>, i: int) -> Option<Seq<char>> {
    if 0 <= i < ls.len() {
        Some(ls[i])
    } else {
        None
    }
}

/// How line `i` is shown.
pub open spec fn shown_at(shown: Seq<Seq<char>>, i: int) -> Seq<char> {
    if 0 <= i < shown.len() {
        shown[i]
    } else {
        "<missing>"@
    }
}

/// The texts do not have the same line at `i`.
pub open spec fn differs(a: Seq<Seq<char>>, b: Seq<Seq<char>>, i: int) -> bool {
    line_at(a, i) != line_at(b, i)
}

/// The number of lines of the longer text.
pub open spec fn longest(a: Seq<Seq<char>>, b: Seq<Seq<char>>) -> nat {
    if a.len() < b.len() {
        b.len()
    } else {
        a.len()
    }
}

/// How many of the first `n` lines differ.
pub open spec fn differing(a: Seq<Seq<char>>, b: Seq<Seq<char>>, n: nat) -> nat
    decreases n,
{
    if n == 0 {
        0
    } else {
        differing(a, b, (n - 1) as nat) + if differs(a, b, n - 1) {
            1nat
        } else {
            0nat
        }
    }
}

/// The two sides of line `i`.
pub open spec fn pair(shown_a: Seq<Seq<char>>, shown_b: Seq<Seq<char>>, i: nat) -> Seq<char> {
    "  line "@ + text::decimal(i + 1) + ":\n    expected: "@ + shown_at(shown_a, i as int)
        + "\n    got:      "@ + shown_at(shown_b, i as int) + "\n"@
}

/// The pairs of those of the first `n` lines that differ.
pub open spec fn pairs(
    a: Seq<Seq<char>>,
    b: Seq<Seq<char>>,
    shown_a: Seq<Seq<char>>,
    shown_b: Seq<Seq<char>>,
    n: nat,
) -> Seq<char>
    decreases n,
{
    if n == 0 {
        Seq::empty()
    } else {
        pairs(a, b, shown_a, shown_b, (n - 1) as nat) + if differs(a, b, n - 1) {
            pair(shown_a, shown_b, (n - 1) as nat)
        } else {
            Seq::empty()
        }
    }
}

/// The differences between two texts, given their lines and how each line is
/// shown.
pub open spec fn rendered(
    a: Seq<Seq<char>>,
    b: Seq<Seq<char>>,
    shown_a: Seq<Seq<char>>,
    shown_b: Seq<Seq<char>>,
) -> Seq<char> {
    let n = longest(a, b);
    let k = differing(a, b, n);
    if k == 0 {
        "(no line differences — trailing whitespace or non-line-based difference)\n"@
    } else {
        text::decimal(k) + " of "@ + text::decimal(n) + " line(s) differ (expected "@
            + text::decimal(a.len()) + ", got "@ + text::decimal(b.len()) + "):\n\n"@ + pairs(
            a,
            b,
            shown_a,
            shown_b,
            n,
        )
    }
}

/// No line differs exactly when the texts have the same lines.
pub proof fn lemma_no_difference(a: Seq<Seq<char>>, b: Seq<Seq<char>>)
    ensures
        differing(a, b, longest(a, b)) == 0 <==> a == b,
{
    let n = longest(a, b);
    lemma_differing(a, b, n);
    if differing(a, b, n) == 0 {
        if a.len() != b.len() {
            assert(differs(a, b, n - 1));
        }
        assert forall|i: int| 0 <= i < a.len() implies a[i] == b[i] by {
            assert(!differs(a, b, i));
        }
        assert(a =~= b);
    } else if a == b {
        let i = choose|i: int| 0 <= i < n && #[trigger] differs(a, b, i);
        assert(line_at(a, i) == line_at(b, i));
    }
}

/// The count is zero when none of the lines differs, and only then.
proof fn lemma_differing(a: Seq<Seq<char>>, b: Seq<Seq<char>>, n: nat)
    ensures
        differing(a, b, n) == 0 ==> forall|i: int| 0 <= i < n ==> !#[trigger] differs(a, b, i),
        differing(a, b, n) > 0 ==> exists|i: int| 0 <= i < n && #[trigger] differs(a, b, i),
        differing(a, b, n) <= n,
    decreases n,
{
    if n > 0 {
        lemma_differing(a, b, (n - 1) as nat);
        if differs(a, b, n - 1) {
            assert(0 <= n - 1 < n);
        } else if differing(a, b, n) > 0 {
            let i = choose|i: int| 0 <= i < n - 1 && #[trigger] differs(a, b, i);
            assert(differs(a, b, i));
        }
    }
}

/// The line is in neither text or the same in both.
fn same_line(a: &Vec<String>, b: &Vec<String>, i: usize) -> (r: bool)
    ensures
        r == !differs(text::strings_view(a@), text::strings_view(b@), i as int),
{
    if i < a.len() && i < b.len() {
        str_eq(a[i].as_str(), b[i].as_str())
    } else {
        i >= a.len() && i >= b.len()
    }
}

/// Append how line `i` is shown.
fn push_shown(out: &mut String, shown: &Vec<String>, i: usize)
    ensures
        final(out)@ == old(out)@ + shown_at(text::strings_view(shown@), i as int),
{
    if i < shown.len() {
        out.append(shown[i].as_str());
    } else {
        out.append("<missing>");
    }
}

/// The differences between two texts, from their lines and from how each line
/// is shown.
pub fn render_line_diff(
    expected: &Vec<String>,
    got: &Vec<String>,
    shown_expected: &Vec<String>,
    shown_got: &Vec<String>,
) -> (r: String)
    ensures
        r@ == rendered(
            text::strings_view(expected@),
            text::strings_view(got@),
            text::strings_view(shown_expected@),
            text::strings_view(shown_got@),
        ),
{
    let ghost a = text::strings_view(expected@);
    let ghost b = text::strings_view(got@);
    let ghost sa = text::strings_view(shown_expected@);
    let ghost sb = text::strings_view(shown_got@);
    let n: usize = if expected.len() < got.len() {
        got.len()
    } else {
        expected.len()
    };
    let mut body = String::new();
    let mut count: usize = 0;
    let mut i: usize = 0;
    assert(body@ =~= pairs(a, b, sa, sb, 0));
    while i < n
        invariant
            i <= n,
            a == text::strings_view(expected@),
            b == text::strings_view(got@),
            sa == text::strings_view(shown_expected@),
            sb == text::strings_view(shown_got@),
            count <= i,
            count == differing(a, b, i as nat),
            body@ == pairs(a, b, sa, sb, i as nat),
        decreases n - i,
    {
        let ghost start = body@;
        if !same_line(expected, got, i) {
            count += 1;
            body.append("  line ");
            push_decimal(&mut body, (i + 1) as u64);
            body.append(":\n    expected: ");
            push_shown(&mut body, shown_expected, i);
            body.append("\n    got:      ");
            push_shown(&mut body, shown_got, i);
            body.append("\n");
            assert(body@ =~= start + pair(sa, sb, i as nat));
        }
        assert(body@ =~= pairs(a, b, sa, sb, (i + 1) as nat));
        i += 1;
    }
    if count == 0 {
        return "(no line differences — trailing whitespace or non-line-based difference)\n".to_owned();
    }
    let mut out = String::new();
    push_decimal(&mut out, count as u64);
    out.append(" of ");
    push_decimal(&mut out, n as u64);
    out.append(" line(s) differ (expected ");
    push_decimal(&mut out, expected.len() as u64);
    out.append(", got ");
    push_decimal(&mut out, got.len() as u64);
    out.append("):\n\n");
    out.append(body.as_str());
    assert(out@ =~= rendered(a, b, sa, sb));
    out
}

/// How each line is shown.
fn show_lines(ls: &Vec<String>) -> (r: Vec<String>)
    ensures
        text::strings_view(r@) == shown(text::strings_view(ls@)),
{
    let mut out: Vec<String> = Vec::new();
    let mut i: usize = 0;
    while i < ls.len()
        invariant
            i <= ls@.len(),
            out@.len() == i,
            forall|j: int| 0 <= j < i ==> (#[trigger] out@[j])@ == debug_text(ls@[j]@),
        decreases ls@.len() - i,
    {
        out.push(debug_string(ls[i].as_str()));
        i += 1;
    }
    assert(text::strings_view(out@) =~= shown(text::strings_view(ls@)));
    out
}

/// Format a line-by-line diff of two texts. Only lines that differ are shown,
/// each with its number and both sides.
pub fn format_line_diff(expected: &str, got: &str) -> (r: String)
    ensures
        r@ == rendered(
            lines(expected@),
            lines(got@),
            shown(lines(expected@)),
            shown(lines(got@)),
        ),
{
    let a = split_lines(expected);
    let b = split_lines(got);
    let shown_a = show_lines(&a);
    let shown_b = show_lines(&b);
    render_line_diff(&a, &b, &shown_a, &shown_b)
}

} // verus!
