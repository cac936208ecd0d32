//! Why a block holds its own start marker only at its start and its end marker only at its end,
//! whatever the name of the hook.
//!
//! The block holds four copies of the hook's name. The start marker is told by two runs of `>`,
//! one on each side of a copy, and the end marker by two runs of `<`. Outside of the copies the
//! block holds few of either. A marker out of its place would take its first run from one copy of
//! the name and its last run from behind that copy, and with it a fifth copy of the name, shifted
//! against the first. Copies of one name hold the same number of `>` and of `<`, and the stretch
//! by which the shifted copy begins later holds more of them than the stretch by which it ends
//! later.

use crate::block::{block_text, end_marker, start_marker};
use crate::config::CONFIG_FILENAME;
use crate::text::occurs_at;
use vstd::prelude::*;

verus! {

/// How often `c` stands in `text` from position `from` up to position `to`.
spec fn count(text: Seq<char>, c: char, from: int, to: int) -> int
    decreases to - from,
{
    if from >= to {
        0
    } else {
        count(text, c, from, to - 1) + if text[to - 1] == c {
            1int
        } else {
            0
        }
    }
}

proof fn lemma_count_splits(text: Seq<char>, c: char, from: int, mid: int, to: int)
    requires
        from <= mid <= to,
    ensures
        count(text, c, from, to) == count(text, c, from, mid) + count(text, c, mid, to),
    decreases to - mid,
{
    if mid < to {
        lemma_count_splits(text, c, from, mid, to - 1);
    }
}

proof fn lemma_count_bounds(text: Seq<char>, c: char, from: int, to: int)
    requires
        from <= to,
    ensures
        0 <= count(text, c, from, to) <= to - from,
        (forall|i: int| from <= i < to ==> text[i] != c) ==> count(text, c, from, to) == 0,
        (forall|i: int| from <= i < to ==> text[i] == c) ==> count(text, c, from, to) == to - from,
    decreases to - from,
{
    if from < to {
        lemma_count_bounds(text, c, from, to - 1);
    }
}

proof fn lemma_count_same(text: Seq<char>, other: Seq<char>, c: char, a: int, b: int, n: int)
    requires
        0 <= n,
        forall|i: int| 0 <= i < n ==> #[trigger] text[a + i] == other[b + i],
    ensures
        count(text, c, a, a + n) == count(other, c, b, b + n),
    decreases n,
{
    if n > 0 {
        lemma_count_same(text, other, c, a, b, n - 1);
        assert(text[a + (n - 1)] == other[b + (n - 1)]);
    }
}

/// `name` stands in `text` at `at`, character by character.
spec fn copy_at(text: Seq<char>, name: Seq<char>, at: int) -> bool {
    forall|i: int| 0 <= i < name.len() ==> #[trigger] text[at + i] == name[i]
}

/// The three characters of `text` from `at` on are `c`.
spec fn run_at(text: Seq<char>, c: char, at: int) -> bool {
    text[at] == c && text[at + 1] == c && text[at + 2] == c
}

/// Between the copies of `name` at `a` and at `b` stands little of `c`, and before a run of it
/// stands less than a run.
spec fn gap_between(text: Seq<char>, c: char, name: Seq<char>, a: int, b: int) -> bool {
    let end = a + name.len();
    &&& end + 16 <= b
    &&& count(text, c, end, b) <= 5
    &&& forall|x: int|
        end <= x < b && #[trigger] run_at(text, c, x) ==> count(text, c, end, x - 1) <= 2
}

/// A copy of `name` at `q` that has the run of `c` before it in the copy at `a` has no such run
/// after it.
proof fn lemma_no_shifted_copy(text: Seq<char>, c: char, name: Seq<char>, a: int, b: int, q: int)
    requires
        copy_at(text, name, a),
        copy_at(text, name, b),
        copy_at(text, name, q),
        gap_between(text, c, name, a, b),
        a <= q - 12,
        q - 10 < a + name.len(),
        run_at(text, c, q - 12),
    ensures
        !run_at(text, c, q + name.len() + 1),
{
    if run_at(text, c, q + name.len() + 1) {
        let n = name.len() as int;
        let r = q + n;
        // The two copies hold equally many, so the stretches by which they differ do.
        assert(count(text, c, a, q) == count(text, c, a + n, r)) by {
            lemma_count_splits(text, c, a, q, r);
            lemma_count_splits(text, c, a, a + n, r);
            assert forall|i: int| 0 <= i < n implies #[trigger] text[a + i] == text[q + i] by {
                assert(text[q + i] == name[i]);
            }
            lemma_count_same(text, text, c, a, q, n);
        }
        lemma_count_bounds(text, c, q - 12, q - 9);
        if r + 1 < b {
            assert(run_at(text, c, r + 1));
            assert(count(text, c, a + n, r) <= 2);
            lemma_count_splits(text, c, a, q - 12, q);
            lemma_count_splits(text, c, q - 12, q - 9, q);
            lemma_count_bounds(text, c, a, q - 12);
            lemma_count_bounds(text, c, q - 9, q);
        } else {
            let k = r - b;
            assert(text[b + (k + 1)] == name[k + 1]);
            assert(text[b + (k + 2)] == name[k + 2]);
            assert(text[b + (k + 3)] == name[k + 3]);
            assert(text[a + (k + 1)] == c);
            assert(text[a + (k + 2)] == c);
            assert(text[a + (k + 3)] == c);
            // From `a` on: `k` characters, a run, something, another run.
            assert(count(text, c, a, q) >= count(text, c, a, a + k + 1) + 6) by {
                lemma_count_splits(text, c, a, a + k + 1, q);
                lemma_count_splits(text, c, a + k + 1, a + k + 4, q);
                lemma_count_splits(text, c, a + k + 4, q - 12, q);
                lemma_count_splits(text, c, q - 12, q - 9, q);
                lemma_count_bounds(text, c, a + k + 1, a + k + 4);
                lemma_count_bounds(text, c, a + k + 4, q - 12);
                lemma_count_bounds(text, c, q - 9, q);
            }
            // From the end of that copy on: the gap, and `k` characters.
            assert(count(text, c, a + n, r) <= 5 + count(text, c, b, b + k + 1)) by {
                lemma_count_bounds(text, c, b, b + k + 1);
                if k >= 0 {
                    lemma_count_splits(text, c, a + n, b, r);
                    lemma_count_splits(text, c, b, r, r + 1);
                    lemma_count_bounds(text, c, r, r + 1);
                } else {
                    lemma_count_splits(text, c, a + n, r, b);
                    lemma_count_bounds(text, c, r, b);
                }
            }
            assert(count(text, c, a, a + k + 1) == count(text, c, b, b + k + 1)) by {
                assert forall|i: int| 0 <= i < k + 1 implies #[trigger] text[a + i]
                    == text[b + i] by {
                    assert(text[b + i] == name[i]);
                }
                lemma_count_same(text, text, c, a, b, k + 1);
            }
        }
    }
}

/// The text before the first copy of the hook's name.
spec fn head() -> Seq<char> {
    "# >>> hookmgr "@
}

/// The text between the first copy of the hook's name and the second.
spec fn first_gap() -> Seq<char> {
    " >>>"@
        + "\n# Installed by `hookmgr install`. Safe to re-run to update this block in\n# place; do not hand-edit between the markers. The commands that actually\n# run live in "@
        + CONFIG_FILENAME@
        + ", not here.\nif command -v hookmgr >/dev/null 2>&1; then\nhookmgr run "@
}

/// The text between the second copy of the hook's name and the third.
spec fn second_gap() -> Seq<char> {
    " -- \"$@\"\nelse\necho \"hookmgr: not found on PATH, skipping "@
}

/// The text between the third copy of the hook's name and the fourth.
spec fn third_gap() -> Seq<char> {
    " checks\" >&2\nfi\n"@ + "# <<< hookmgr "@
}

/// The text behind the last copy of the hook's name.
spec fn tail() -> Seq<char> {
    " <<<"@ + "\n"@
}

/// A gap with little of `c` in it, none of it at either end, and less than a run before a run.
spec fn gentle(gap: Seq<char>, c: char) -> bool {
    &&& gap.len() >= 16
    &&& gap[0] != c
    &&& gap[gap.len() - 1] != c
    &&& count(gap, c, 0, gap.len() as int) <= 5
    &&& forall|x: int|
        0 <= x && x + 2 < gap.len() && #[trigger] run_at(gap, c, x) ==> count(gap, c, 0, x - 1) <= 2
}

/// Where `<` and `>` stand in the text around the copies of the name.
proof fn lemma_fixed_text()
    ensures
        head().len() == 14,
        forall|i: int| 0 <= i < 14 ==> head()[i] != '<',
        forall|i: int| 0 <= i < 14 && head()[i] == '>' ==> 2 <= i < 5,
        first_gap().len() >= 60,
        first_gap()[0] == ' ',
        first_gap()[4] == '\n',
        first_gap()[first_gap().len() - 1] == ' ',
        forall|i: int| 0 <= i < first_gap().len() ==> first_gap()[i] != '<',
        forall|i: int|
            0 <= i < first_gap().len() && first_gap()[i] == '>' ==> 1 <= i < 4 || i
                == first_gap().len() - 34 || i == first_gap().len() - 22,
        second_gap().len() >= 16,
        second_gap()[0] == ' ',
        second_gap()[second_gap().len() - 1] == ' ',
        forall|i: int| 0 <= i < second_gap().len() ==> second_gap()[i] != '<',
        forall|i: int| 0 <= i < second_gap().len() ==> second_gap()[i] != '>',
        third_gap().len() == 30,
        third_gap()[0] == ' ',
        third_gap()[29] == ' ',
        forall|i: int| 0 <= i < 30 && third_gap()[i] == '<' ==> 18 <= i < 21,
        forall|i: int| 0 <= i < 30 && third_gap()[i] == '>' ==> i == 9,
{
    reveal_strlit("# >>> hookmgr ");
    reveal_strlit(" >>>");
    reveal_strlit(
        "\n# Installed by `hookmgr install`. Safe to re-run to update this block in\n# place; do not hand-edit between the markers. The commands that actually\n# run live in ",
    );
    reveal_strlit(".hookmgr.toml");
    reveal_strlit(", not here.\nif command -v hookmgr >/dev/null 2>&1; then\nhookmgr run ");
    reveal_strlit(" -- \"$@\"\nelse\necho \"hookmgr: not found on PATH, skipping ");
    reveal_strlit(" checks\" >&2\nfi\n");
    reveal_strlit("# <<< hookmgr ");
}

proof fn lemma_gentle_gaps()
    ensures
        gentle(first_gap(), '<'),
        gentle(first_gap(), '>'),
        gentle(second_gap(), '<'),
        gentle(second_gap(), '>'),
        gentle(third_gap(), '<'),
        gentle(third_gap(), '>'),
{
    lemma_fixed_text();
    let gap = first_gap();
    let n = gap.len() as int;
    assert forall|x: int| 0 <= x <= n implies count(gap, '<', 0, x) == 0 by {
        lemma_count_bounds(gap, '<', 0, x);
    }
    assert(count(gap, '>', 0, n) <= 5) by {
        lemma_count_splits(gap, '>', 0, 1, n);
        lemma_count_splits(gap, '>', 1, 4, n);
        lemma_count_splits(gap, '>', 4, n - 34, n);
        lemma_count_splits(gap, '>', n - 34, n - 33, n);
        lemma_count_splits(gap, '>', n - 33, n - 22, n);
        lemma_count_splits(gap, '>', n - 22, n - 21, n);
        lemma_count_bounds(gap, '>', 0, 1);
        lemma_count_bounds(gap, '>', 1, 4);
        lemma_count_bounds(gap, '>', 4, n - 34);
        lemma_count_bounds(gap, '>', n - 34, n - 33);
        lemma_count_bounds(gap, '>', n - 33, n - 22);
        lemma_count_bounds(gap, '>', n - 22, n - 21);
        lemma_count_bounds(gap, '>', n - 21, n);
    }
    let gap = second_gap();
    assert forall|x: int| 0 <= x <= gap.len() implies count(gap, '<', 0, x) == 0 && count(
        gap,
        '>',
        0,
        x,
    ) == 0 by {
        lemma_count_bounds(gap, '<', 0, x);
        lemma_count_bounds(gap, '>', 0, x);
    }
    let gap = third_gap();
    assert(count(gap, '<', 0, 17) == 0 && count(gap, '<', 0, 30) <= 5) by {
        lemma_count_bounds(gap, '<', 0, 17);
        lemma_count_splits(gap, '<', 0, 18, 30);
        lemma_count_splits(gap, '<', 18, 21, 30);
        lemma_count_bounds(gap, '<', 0, 18);
        lemma_count_bounds(gap, '<', 18, 21);
        lemma_count_bounds(gap, '<', 21, 30);
    }
    assert(count(gap, '>', 0, 30) <= 5) by {
        lemma_count_splits(gap, '>', 0, 9, 30);
        lemma_count_splits(gap, '>', 9, 10, 30);
        lemma_count_bounds(gap, '>', 0, 9);
        lemma_count_bounds(gap, '>', 9, 10);
        lemma_count_bounds(gap, '>', 10, 30);
    }
}

/// `part` stands in `text` from `at` on, character by character.
spec fn stretch_at(text: Seq<char>, part: Seq<char>, at: int) -> bool {
    forall|i: int| at <= i < at + part.len() ==> #[trigger] text[i] == part[i - at]
}

/// A gentle stretch of text between two copies of the name is a gap between them.
proof fn lemma_gap_between(
    text: Seq<char>,
    c: char,
    name: Seq<char>,
    a: int,
    b: int,
    gap: Seq<char>,
)
    requires
        gentle(gap, c),
        b == a + name.len() + gap.len(),
        stretch_at(text, gap, a + name.len()),
    ensures
        gap_between(text, c, name, a, b),
{
    let end = a + name.len();
    assert forall|n: int| 0 <= n <= gap.len() implies #[trigger] count(text, c, end, end + n)
        == count(gap, c, 0, n) by {
        assert forall|i: int| 0 <= i < n implies #[trigger] text[end + i] == gap[0 + i] by {}
        lemma_count_same(text, gap, c, end, 0, n);
    }
    assert(count(text, c, end, end + gap.len()) <= 5);
    assert forall|x: int| end <= x < b && #[trigger] run_at(text, c, x) implies count(
        text,
        c,
        end,
        x - 1,
    ) <= 2 by {
        assert(text[b - 1] == gap[gap.len() - 1]);
        let y = x - end;
        assert(x + 2 < b);
        assert(run_at(gap, c, y));
        if y >= 1 {
            assert(count(text, c, end, end + (y - 1)) == count(gap, c, 0, y - 1));
        }
    }
}

/// The block, piece by piece.
proof fn lemma_pieces(hook: Seq<char>)
    ensures
        ({
            let t = block_text(hook);
            let n = hook.len() as int;
            let c1 = 14 + n + first_gap().len();
            let c2 = c1 + n + second_gap().len();
            let c3 = c2 + n + 30;
            &&& stretch_at(t, head(), 0)
            &&& copy_at(t, hook, 14)
            &&& stretch_at(t, first_gap(), 14 + n)
            &&& copy_at(t, hook, c1)
            &&& stretch_at(t, second_gap(), c1 + n)
            &&& copy_at(t, hook, c2)
            &&& stretch_at(t, third_gap(), c2 + n)
            &&& copy_at(t, hook, c3)
            &&& t.len() == c3 + n + 5
        }),
{
    lemma_fixed_text();
    reveal_strlit(" <<<");
    reveal_strlit("\n");
    let n = hook.len() as int;
    let t1 = head() + hook + first_gap();
    let t2 = t1 + hook + second_gap();
    let t3 = t2 + hook + third_gap();
    let t = t3 + hook + tail();
    assert(block_text(hook) == t);
    assert(forall|i: int| 0 <= i < t3.len() ==> t[i] == t3[i]);
    assert(forall|i: int| 0 <= i < t2.len() ==> t3[i] == t2[i]);
    assert(forall|i: int| 0 <= i < t1.len() ==> t2[i] == t1[i]);
    assert forall|i: int| 0 <= i < n implies #[trigger] t[14 + i] == hook[i] by {
        assert(t1[14 + i] == hook[i]);
    }
    assert forall|i: int| 0 <= i < n implies #[trigger] t[t1.len() + i] == hook[i] by {
        assert(t2[t1.len() + i] == hook[i]);
    }
    assert forall|i: int| 0 <= i < n implies #[trigger] t[t2.len() + i] == hook[i] by {
        assert(t3[t2.len() + i] == hook[i]);
    }
}

/// What a marker brings along, wherever it stands.
proof fn lemma_marker_parts(
    text: Seq<char>,
    c: char,
    hook: Seq<char>,
    left: Seq<char>,
    right: Seq<char>,
    p: int,
)
    requires
        occurs_at(text, left + hook + right, p),
        left.len() == 14,
        right.len() == 4,
        run_at(left, c, 2),
        run_at(right, c, 1),
    ensures
        run_at(text, c, p + 2),
        text[p + 5] == left[5],
        copy_at(text, hook, p + 14),
        run_at(text, c, p + 14 + hook.len() + 1),
{
    let marker = left + hook + right;
    let n = hook.len() as int;
    assert forall|i: int| 0 <= i < marker.len() implies #[trigger] text[p + i] == marker[i] by {
        assert(text.subrange(p, p + marker.len())[i] == marker[i]);
    }
    assert(text[p + 2] == marker[2]);
    assert(text[p + 3] == marker[3]);
    assert(text[p + 4] == marker[4]);
    assert(text[p + 5] == marker[5]);
    assert forall|i: int| 0 <= i < n implies #[trigger] text[p + 14 + i] == hook[i] by {
        assert(text[p + (14 + i)] == marker[14 + i]);
    }
    assert(text[p + (14 + n + 1)] == marker[14 + n + 1]);
    assert(text[p + (14 + n + 2)] == marker[14 + n + 2]);
    assert(text[p + (14 + n + 3)] == marker[14 + n + 3]);
}

/// The end marker of a block stands in it once, at its end.
pub(crate) proof fn lemma_end_marker_closes_block(hook: Seq<char>)
    ensures
        ({
            let at = block_text(hook).len() - end_marker(hook).len() - 1;
            &&& occurs_at(block_text(hook), end_marker(hook), at)
            &&& forall|p: int| p < at ==> !occurs_at(block_text(hook), end_marker(hook), p)
        }),
{
    let t = block_text(hook);
    let n = hook.len() as int;
    let end = end_marker(hook);
    let at = t.len() - end.len() - 1;
    let c1 = 14 + n + first_gap().len();
    let c2 = c1 + n + second_gap().len();
    let c3 = c2 + n + 30;
    reveal_strlit("# <<< hookmgr ");
    reveal_strlit(" <<<");
    reveal_strlit("\n");
    assert(t.subrange(at, at + end.len()) == end);
    lemma_fixed_text();
    lemma_gentle_gaps();
    lemma_pieces(hook);
    lemma_gap_between(t, '<', hook, 14, c1, first_gap());
    lemma_gap_between(t, '<', hook, c1, c2, second_gap());
    lemma_gap_between(t, '<', hook, c2, c3, third_gap());
    assert forall|p: int| p < at implies !occurs_at(t, end, p) by {
        if occurs_at(t, end, p) {
            lemma_marker_parts(t, '<', hook, "# <<< hookmgr "@, " <<<"@, p);
            let q = p + 14;
            assert(t[14 + n] == ' ');
            assert(t[c1 + n] == ' ');
            assert(t[c2 + n] == ' ');
            if p + 2 < 14 + n {
                lemma_no_shifted_copy(t, '<', hook, 14, c1, q);
            } else if p + 2 < c1 + n {
                lemma_no_shifted_copy(t, '<', hook, c1, c2, q);
            } else {
                lemma_no_shifted_copy(t, '<', hook, c2, c3, q);
            }
        }
    }
}

/// The parts of a start marker do not stand together behind the start of a text with these
/// copies of the name and this text between them.
proof fn lemma_no_second_start(text: Seq<char>, hook: Seq<char>, c1: int, c2: int, c3: int, p: int)
    requires
        stretch_at(text, head(), 0),
        copy_at(text, hook, 14),
        stretch_at(text, first_gap(), 14 + hook.len() as int),
        copy_at(text, hook, c1),
        stretch_at(text, second_gap(), c1 + hook.len()),
        copy_at(text, hook, c2),
        stretch_at(text, third_gap(), c2 + hook.len()),
        copy_at(text, hook, c3),
        gap_between(text, '>', hook, 14, c1),
        gap_between(text, '>', hook, c1, c2),
        gap_between(text, '>', hook, c2, c3),
        c1 == 14 + hook.len() + first_gap().len(),
        c2 == c1 + hook.len() + second_gap().len(),
        c3 == c2 + hook.len() + 30,
        0 < p <= c3 - 14,
        run_at(text, '>', p + 2),
        text[p + 5] == ' ',
        copy_at(text, hook, p + 14),
    ensures
        !run_at(text, '>', p + 14 + hook.len() + 1),
{
    lemma_fixed_text();
    let n = hook.len() as int;
    let x = p + 2;
    // The run lies in one of the first three copies of the name.
    if x < 14 {
        assert(text[x] == head()[x]);
        assert(text[13] == head()[13]);
        assert(text[5] == head()[5]);
        assert(x == 3 || x == 4);
        assert(text[5] == '>');
    } else if x < 14 + n {
        assert(text[14 + n] == first_gap()[0]);
        lemma_no_shifted_copy(text, '>', hook, 14, c1, p + 14);
    } else if x < c1 {
        let y = x - 14 - n;
        assert(text[x] == first_gap()[y]);
        if y + 1 < first_gap().len() {
            assert(text[x + 1] == first_gap()[y + 1]);
        }
        if y + 2 < first_gap().len() {
            assert(text[x + 2] == first_gap()[y + 2]);
        }
        assert(text[c1 - 1] == first_gap()[first_gap().len() - 1]);
        assert(y == 1);
        assert(text[14 + n + 4] == first_gap()[4]);
        assert(false);
    } else if x < c1 + n {
        assert(text[c1 + n] == second_gap()[0]);
        lemma_no_shifted_copy(text, '>', hook, c1, c2, p + 14);
    } else if x < c2 {
        assert(text[x] == second_gap()[x - c1 - n]);
        assert(false);
    } else if x < c2 + n {
        assert(text[c2 + n] == third_gap()[0]);
        lemma_no_shifted_copy(text, '>', hook, c2, c3, p + 14);
    } else {
        assert(text[x] == third_gap()[x - c2 - n]);
        assert(text[x + 1] == third_gap()[x + 1 - c2 - n]);
        assert(false);
    }
}

/// The start marker of a block stands in it, up to the end marker, once: at its start.
pub(crate) proof fn lemma_start_marker_opens_block(hook: Seq<char>)
    ensures
        ({
            let at = block_text(hook).len() - end_marker(hook).len() - 1;
            &&& occurs_at(block_text(hook), start_marker(hook), 0)
            &&& forall|p: int|
                0 < p <= at ==> !occurs_at(block_text(hook), start_marker(hook), p)
        }),
{
    let t = block_text(hook);
    let n = hook.len() as int;
    let start = start_marker(hook);
    let at = t.len() - end_marker(hook).len() - 1;
    let c1 = 14 + n + first_gap().len();
    let c2 = c1 + n + second_gap().len();
    let c3 = c2 + n + 30;
    reveal_strlit("# >>> hookmgr ");
    reveal_strlit("# <<< hookmgr ");
    reveal_strlit(" >>>");
    reveal_strlit(" <<<");
    assert(t.subrange(0, start.len() as int) == start);
    lemma_fixed_text();
    lemma_gentle_gaps();
    lemma_pieces(hook);
    lemma_gap_between(t, '>', hook, 14, c1, first_gap());
    lemma_gap_between(t, '>', hook, c1, c2, second_gap());
    lemma_gap_between(t, '>', hook, c2, c3, third_gap());
    assert forall|p: int| 0 < p <= at implies !occurs_at(t, start, p) by {
        if occurs_at(t, start, p) {
            lemma_marker_parts(t, '>', hook, "# >>> hookmgr "@, " >>>"@, p);
            lemma_no_second_start(t, hook, c1, c2, c3, p);
        }
    }
}

} // verus!
