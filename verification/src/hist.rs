//! Color histograms with a pinned-down, first-seen deterministic order.

use vstd::prelude::*;

use crate::color::RgbColor;

verus! {

/// One histogram entry: a color and how often it occurs.
#[derive(Clone, Copy, PartialEq, Eq, Structural, Debug)]
pub struct ColorCount {
    pub color: RgbColor,
    pub count: usize,
}

/// First index at or after `i` holding `c`, or the length when absent.
pub open spec fn spec_find_color(h: Seq<ColorCount>, c: RgbColor, i: int) -> int
    decreases h.len() - i,
{
    if i < 0 || i >= h.len() {
        h.len() as int
    } else if h[i].color == c {
        i
    } else {
        spec_find_color(h, c, i + 1)
    }
}

/// Count one more occurrence of `c`: bump its entry, or append a fresh one.
/// New colors enter at the back, which is what makes the histogram order
/// first-seen deterministic.
pub open spec fn spec_add_color(h: Seq<ColorCount>, c: RgbColor) -> Seq<ColorCount> {
    let i = spec_find_color(h, c, 0);
    if i < h.len() {
        h.update(i, ColorCount { color: c, count: (h[i].count + 1) as usize })
    } else {
        h.push(ColorCount { color: c, count: 1 })
    }
}

/// The histogram of a pixel sequence, in first-seen color order.
pub open spec fn spec_histogram(pixels: Seq<RgbColor>) -> Seq<ColorCount>
    decreases pixels.len(),
{
    if pixels.len() == 0 {
        Seq::<ColorCount>::empty()
    } else {
        spec_add_color(spec_histogram(pixels.drop_last()), pixels.last())
    }
}

/// The first-match search stays within bounds.
pub proof fn lemma_find_color_range(h: Seq<ColorCount>, c: RgbColor, i: int)
    requires
        0 <= i <= h.len(),
    ensures
        i <= spec_find_color(h, c, i) <= h.len(),
    decreases h.len() - i,
{
    if i < h.len() && h[i].color != c {
        lemma_find_color_range(h, c, i + 1);
    }
}

/// A histogram has at most one entry per pixel.
pub proof fn lemma_histogram_len(pixels: Seq<RgbColor>)
    ensures
        spec_histogram(pixels).len() <= pixels.len(),
    decreases pixels.len(),
{
    if pixels.len() > 0 {
        lemma_histogram_len(pixels.drop_last());
        let h = spec_histogram(pixels.drop_last());
        lemma_find_color_range(h, pixels.last(), 0);
        assert(spec_histogram(pixels) == spec_add_color(h, pixels.last()));
        assert(spec_add_color(h, pixels.last()).len() <= h.len() + 1);
    }
}

/// First index of `c` in `h`, or `h.len()` when `c` is absent.
fn find_color_index(h: &Vec<ColorCount>, c: &RgbColor) -> (r: usize)
    ensures
        r == spec_find_color(h@, *c, 0),
        r <= h@.len(),
        r < h@.len() ==> h@[r as int].color == *c,
{
    let mut i: usize = 0;
    while i < h.len()
        invariant
            i <= h@.len(),
            spec_find_color(h@, *c, 0) == spec_find_color(h@, *c, i as int),
        decreases h@.len() - i,
    {
        if h[i].color.r == c.r && h[i].color.g == c.g && h[i].color.b == c.b {
            proof {
                assert(h@[i as int].color == *c);
            }
            return i;
        }
        i = i + 1;
    }
    h.len()
}

/// Build the histogram of a pixel sequence: counts by color, colors in
/// first-seen order.
pub fn build_histogram(pixels: &Vec<RgbColor>) -> (h: Vec<ColorCount>)
    ensures
        h@ == spec_histogram(pixels@),
{
    let mut h: Vec<ColorCount> = Vec::new();
    let mut i: usize = 0;
    proof {
        assert(pixels@.take(0) =~= Seq::<RgbColor>::empty());
        vstd::std_specs::vec::axiom_spec_len(pixels);
    }
    while i < pixels.len()
        invariant
            i <= pixels@.len(),
            pixels@.len() <= usize::MAX,
            h@ == spec_histogram(pixels@.take(i as int)),
            forall|k: int| 0 <= k < h@.len() ==> #[trigger] h@[k].count <= i,
        decreases pixels@.len() - i,
    {
        let c = pixels[i];
        proof {
            assert(pixels@.take(i + 1).drop_last() =~= pixels@.take(i as int));
            assert(pixels@.take(i + 1).last() == pixels@[i as int]);
        }
        let idx = find_color_index(&h, &c);
        if idx < h.len() {
            let old_count = h[idx].count;
            h[idx] = ColorCount { color: c, count: old_count + 1 };
        } else {
            h.push(ColorCount { color: c, count: 1 });
        }
        i = i + 1;
    }
    proof {
        assert(pixels@.take(pixels@.len() as int) =~= pixels@);
    }
    h
}

/// The index of the entry with the strictly largest count seen first: the
/// deterministic first-seen-wins argmax.
pub open spec fn spec_max_count_from(h: Seq<ColorCount>, i: int, best: int) -> int
    decreases h.len() - i,
{
    if i < 0 || i >= h.len() {
        best
    } else if 0 <= best < h.len() && h[i].count > h[best].count {
        spec_max_count_from(h, i + 1, i)
    } else {
        spec_max_count_from(h, i + 1, best)
    }
}

pub open spec fn spec_max_count_index(h: Seq<ColorCount>) -> int {
    spec_max_count_from(h, 1, 0)
}

/// The first-seen entry with the largest count.
pub fn max_count_index(h: &Vec<ColorCount>) -> (r: usize)
    requires
        1 <= h@.len(),
    ensures
        r == spec_max_count_index(h@),
        r < h@.len(),
{
    let mut best: usize = 0;
    let mut i: usize = 1;
    while i < h.len()
        invariant
            1 <= i <= h@.len(),
            best < i,
            spec_max_count_from(h@, i as int, best as int) == spec_max_count_index(h@),
        decreases h@.len() - i,
    {
        if h[i].count > h[best].count {
            best = i;
        }
        i = i + 1;
    }
    best
}

/// The most frequent entries, in descending count (ties first-seen), taken
/// `n` at a time by repeated extraction.
pub open spec fn spec_top_entries(h: Seq<ColorCount>, n: int) -> Seq<ColorCount>
    decreases n,
{
    if n <= 0 || h.len() == 0 {
        Seq::<ColorCount>::empty()
    } else {
        let i = spec_max_count_index(h);
        if 0 <= i < h.len() {
            seq![h[i]] + spec_top_entries(h.remove(i), n - 1)
        } else {
            Seq::<ColorCount>::empty()
        }
    }
}

/// Extract the `n` most frequent entries, leaving the histogram order of the
/// rest untouched.
pub fn top_entries(h: &Vec<ColorCount>, n: usize) -> (r: Vec<ColorCount>)
    ensures
        r@ == spec_top_entries(h@, n as int),
{
    let mut rest: Vec<ColorCount> = h.clone();
    let mut out: Vec<ColorCount> = Vec::new();
    let mut k: usize = 0;
    proof {
        assert(out@ =~= Seq::<ColorCount>::empty());
    }
    while k < n && rest.len() > 0
        invariant
            k <= n,
            spec_top_entries(h@, n as int) == out@ + spec_top_entries(rest@, n as int - k),
        decreases n - k,
    {
        let i = max_count_index(&rest);
        let e = rest[i];
        let ghost before = rest@;
        rest.remove(i);
        out.push(e);
        proof {
            assert(out@ + spec_top_entries(rest@, n as int - k - 1) =~= (out@.drop_last()
                + (seq![e] + spec_top_entries(before.remove(i as int), n as int - k - 1))));
        }
        k = k + 1;
    }
    proof {
        if k >= n || rest@.len() == 0 {
            assert(spec_top_entries(rest@, n as int - k) =~= Seq::<ColorCount>::empty());
        }
        assert(out@ + Seq::<ColorCount>::empty() =~= out@);
    }
    out
}

} // verus!
