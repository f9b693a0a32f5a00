//! The layout of an archetype row: where each component's value lies in the
//! row, how large the row is and how it is aligned.
//!
//! A component without a base starts a row of its own. A component with a
//! base appends its value after the base archetype's values. Every row is
//! padded and aligned so that a vacated row can hold the link of the
//! storage's free list.
use vstd::prelude::*;
use vstd::arithmetic::power2::is_pow2;
use vstd::layout::{size_of, align_of};

verus! {

/// The layout of an archetype, as numbers.
pub struct LayoutView {
    /// End of the archetype's own value in the row, before padding.
    pub unaligned_size: int,
    /// Size of a row.
    pub size: int,
    /// Alignment of a row.
    pub align: int,
    /// Position of the archetype's own component value in the row.
    pub offset: int,
    /// Depth of the component in its chain of bases (0 for no base).
    pub index: int,
    /// The bases of the component, the deepest first.
    pub except_self: Seq<usize>,
    /// Size of the component's value.
    pub field_size: int,
    /// Alignment of the component's value.
    pub field_align: int,
}

/// The layout of an archetype, as the world keeps it.
pub struct ArchetypeLayout {
    unaligned_size: usize,
    size: usize,
    align: usize,
    offset: usize,
    index: usize,
    except_self: Vec<usize>,
    field_size: Ghost<int>,
    field_align: Ghost<int>,
}

pub open spec fn max(a: int, b: int) -> int {
    if a >= b {
        a
    } else {
        b
    }
}

/// `x` rounded up to a multiple of `a`.
pub open spec fn align_up(x: int, a: int) -> int {
    ((x + a - 1) / a) * a
}

/// Size of a free-list link stored in a vacated row.
pub open spec fn link_size() -> int {
    size_of::<Option<usize>>() as int
}

/// Alignment of a free-list link stored in a vacated row.
pub open spec fn link_align() -> int {
    align_of::<Option<usize>>() as int
}

/// Alignment of the row of a component without a base.
pub open spec fn root_align(align: int) -> int {
    max(align, link_align())
}

/// Layout of the archetype of a component without a base, whose values have
/// the given size and alignment.
pub open spec fn root_layout(size: int, align: int) -> LayoutView {
    LayoutView {
        unaligned_size: max(size, align),
        size: align_up(max(max(size, align), link_size()), root_align(align)),
        align: root_align(align),
        offset: 0,
        index: 0,
        except_self: Seq::empty(),
        field_size: size,
        field_align: align,
    }
}

/// Alignment of the row of a component derived from `base`.
pub open spec fn derived_align(base: LayoutView, align: int) -> int {
    max(max(base.align, align), link_align())
}

/// Layout of the archetype of a component whose base is the component
/// `base_id` with layout `base`.
pub open spec fn derived_layout(base: LayoutView, base_id: usize, size: int, align: int) -> LayoutView {
    let row_align = derived_align(base, align);
    let offset = align_up(base.unaligned_size, align);
    let unaligned = offset + size;
    LayoutView {
        unaligned_size: unaligned,
        size: align_up(max(unaligned, link_size()), row_align),
        align: row_align,
        offset: offset,
        index: base.index + 1,
        except_self: base.except_self.push(base_id),
        field_size: size,
        field_align: align,
    }
}

/// Whether the layout of a component derived from `base` can be computed in
/// `usize` arithmetic; the depth stays below `usize::MAX` so that a row's
/// value list can have one entry per component of the archetype.
pub open spec fn derived_layout_fits(base: LayoutView, size: int, align: int) -> bool {
    let offset = align_up(base.unaligned_size, align);
    &&& base.unaligned_size + align - 1 <= usize::MAX
    &&& offset + size <= usize::MAX
    &&& max(offset + size, link_size()) + derived_align(base, align) - 1 <= usize::MAX
    &&& base.index + 1 < usize::MAX
}

/// What every layout the world holds satisfies on its own.
pub open spec fn layout_wf(l: LayoutView) -> bool {
    &&& 0 <= l.offset
    &&& l.offset + l.field_size <= l.unaligned_size <= l.size <= usize::MAX
    &&& 0 <= l.field_size
    &&& l.field_size % l.field_align == 0
    &&& is_pow2(l.field_align)
    &&& is_pow2(l.align)
    &&& l.offset % l.field_align == 0
    &&& l.size % l.align == 0
    &&& l.align % l.field_align == 0
    &&& l.except_self.len() == l.index
    &&& 0 <= l.index < usize::MAX
}

impl ArchetypeLayout {
    pub closed spec fn view(&self) -> LayoutView {
        LayoutView {
            unaligned_size: self.unaligned_size as int,
            size: self.size as int,
            align: self.align as int,
            offset: self.offset as int,
            index: self.index as int,
            except_self: self.except_self@,
            field_size: self.field_size@,
            field_align: self.field_align@,
        }
    }

    pub fn size(&self) -> (r: usize)
        ensures
            r == self@.size,
    {
        self.size
    }

    pub fn align(&self) -> (r: usize)
        ensures
            r == self@.align,
    {
        self.align
    }

    pub fn offset(&self) -> (r: usize)
        ensures
            r == self@.offset,
    {
        self.offset
    }

    pub fn index(&self) -> (r: usize)
        ensures
            r == self@.index,
    {
        self.index
    }

    /// Whether `component` is the base at depth `depth` of this archetype.
    pub fn base_at(&self, depth: usize, component: usize) -> (r: bool)
        ensures
            r == (depth < self@.except_self.len() && self@.except_self[depth as int] == component),
    {
        depth < self.except_self.len() && self.except_self[depth] == component
    }

    /// Number of components of the archetype.
    pub fn width(&self) -> (r: usize)
        requires
            layout_wf(self@),
        ensures
            r == self@.index + 1,
    {
        self.except_self.len() + 1
    }
}

/// `x` rounded up to a multiple of `a`.
fn round_up(x: usize, a: usize) -> (r: usize)
    requires
        a > 0,
        x + a - 1 <= usize::MAX,
    ensures
        r == align_up(x as int, a as int),
        x <= r <= x + a - 1,
        r % a == 0,
{
    let y = x + (a - 1);
    proof {
        lemma_align_up(x as int, a as int);
        assert((y / a) * a <= y) by (nonlinear_arith)
            requires
                a > 0,
                y >= 0,
        ;
    }
    (y / a) * a
}

/// Facts about rounding up.
pub proof fn lemma_align_up(x: int, a: int)
    requires
        a > 0,
        x >= 0,
    ensures
        x <= align_up(x, a) <= x + a - 1,
        align_up(x, a) % a == 0,
{
    let y = x + a - 1;
    let q = y / a;
    assert(q * a <= y && y < q * a + a) by (nonlinear_arith)
        requires
            a > 0,
            q == y / a,
    ;
    assert((q * a) % a == 0) by (nonlinear_arith)
        requires
            a > 0,
    ;
}

/// A power of two divides every power of two not smaller than itself.
pub proof fn lemma_pow2_divides(p: int, q: int)
    requires
        is_pow2(p),
        is_pow2(q),
        p <= q,
    ensures
        q % p == 0,
    decreases q,
{
    reveal(is_pow2);
    if p == 1 {
    } else if p == q {
    } else {
        assert(p % 2 == 0 && is_pow2(p / 2));
        assert(q % 2 == 0 && is_pow2(q / 2));
        lemma_pow2_divides(p / 2, q / 2);
        let k = (q / 2) / (p / 2);
        assert((q / 2) == k * (p / 2)) by (nonlinear_arith)
            requires
                (q / 2) % (p / 2) == 0,
                p / 2 > 0,
                k == (q / 2) / (p / 2),
        ;
        assert(q == k * p) by (nonlinear_arith)
            requires
                q / 2 == k * (p / 2),
                q % 2 == 0,
                p % 2 == 0,
        ;
        assert((k * p) % p == 0) by (nonlinear_arith)
            requires
                p > 0,
        ;
    }
}

/// The larger of two powers of two is a power of two divisible by both.
pub proof fn lemma_pow2_max(p: int, q: int)
    requires
        is_pow2(p),
        is_pow2(q),
    ensures
        is_pow2(max(p, q)),
        max(p, q) % p == 0,
        max(p, q) % q == 0,
{
    if p <= q {
        lemma_pow2_divides(p, q);
        lemma_pow2_divides(q, q);
    } else {
        lemma_pow2_divides(q, p);
        lemma_pow2_divides(p, p);
    }
}

/// Divisibility is transitive.
pub proof fn lemma_mod_trans(a: int, b: int, c: int)
    requires
        b > 0,
        c > 0,
        a % b == 0,
        b % c == 0,
    ensures
        a % c == 0,
{
    let k = a / b;
    let m = b / c;
    assert(a == k * b) by (nonlinear_arith)
        requires
            b > 0,
            a % b == 0,
            k == a / b,
    ;
    assert(b == m * c) by (nonlinear_arith)
        requires
            c > 0,
            b % c == 0,
            m == b / c,
    ;
    assert(a == (k * m) * c) by (nonlinear_arith)
        requires
            a == k * b,
            b == m * c,
    ;
    assert(((k * m) * c) % c == 0) by (nonlinear_arith)
        requires
            c > 0,
    ;
}

/// The alignment of a type is a positive power of two that divides its size.
pub proof fn lemma_type_layout<T>()
    ensures
        is_pow2(align_of::<T>() as int),
        align_of::<T>() > 0,
        size_of::<T>() % align_of::<T>() == 0,
{
    broadcast use vstd::layout::align_properties, vstd::layout::align_nonzero;

    assert(is_pow2(align_of::<T>() as int));
}

/// Half the range of `usize` is a power of two.
proof fn lemma_half_range_pow2()
    ensures
        is_pow2(isize::MAX as int + 1),
        usize::MAX == 2 * (isize::MAX as int) + 1,
{
    broadcast use vstd::arithmetic::power2::is_pow2_equiv;

    vstd::layout::signed_int_min_max_values();
    let e = (isize::BITS - 1) as nat;
    vstd::arithmetic::power::lemma_pow_positive(2, e);
    assert(vstd::arithmetic::power::pow(2, e) == isize::MAX as int + 1);
    assert(vstd::arithmetic::power2::is_pow2_exists(isize::MAX as int + 1));
}

/// A power of two that fits in `usize` is at most `isize::MAX + 1`.
pub proof fn lemma_pow2_fits(a: int)
    requires
        is_pow2(a),
        a <= usize::MAX,
    ensures
        a <= isize::MAX as int + 1,
{
    lemma_half_range_pow2();
    let h = isize::MAX as int + 1;
    if a > h {
        lemma_pow2_divides(h, a);
        let k = a / h;
        assert(a == k * h && k >= 2) by (nonlinear_arith)
            requires
                a % h == 0,
                a > h,
                h > 0,
                k == a / h,
        ;
        assert(k * h >= 2 * h) by (nonlinear_arith)
            requires
                k >= 2,
                h > 0,
        ;
    }
}

/// The layout of a row of a component without a base, whose values have a
/// valid layout, can be computed in `usize` arithmetic.
proof fn lemma_root_layout_fits(size: int, align: int)
    requires
        is_pow2(align),
        0 <= size <= isize::MAX,
        align <= usize::MAX,
        is_pow2(link_align()),
        0 <= link_size() <= isize::MAX,
        link_align() <= usize::MAX,
    ensures
        max(max(size, align), link_size()) + root_align(align) - 1 <= usize::MAX,
{
    lemma_half_range_pow2();
    lemma_pow2_fits(align);
    lemma_pow2_fits(link_align());
}

/// A root layout is well formed, and its row can hold the link of the
/// storage's free list.
pub proof fn lemma_root_layout_wf(size: int, align: int)
    requires
        is_pow2(align),
        size >= 0,
        size % align == 0,
        is_pow2(link_align()),
        link_size() >= 0,
        max(max(size, align), link_size()) + root_align(align) - 1 <= usize::MAX,
    ensures
        layout_wf(root_layout(size, align)),
        root_layout(size, align).size >= link_size(),
        root_layout(size, align).align % link_align() == 0,
{
    reveal(is_pow2);
    assert(align > 0 && link_align() > 0);
    assert(0int % align == 0);
    lemma_pow2_max(align, link_align());
    lemma_align_up(max(max(size, align), link_size()), root_align(align));
}

/// A derived layout is well formed, and places the new component's value
/// after every value of its base archetype.
pub proof fn lemma_derived_layout_wf(base: LayoutView, base_id: usize, size: int, align: int)
    requires
        layout_wf(base),
        is_pow2(align),
        size >= 0,
        size % align == 0,
        is_pow2(link_align()),
        link_size() >= 0,
        derived_layout_fits(base, size, align),
    ensures
        layout_wf(derived_layout(base, base_id, size, align)),
        derived_layout(base, base_id, size, align).offset >= base.unaligned_size,
        derived_layout(base, base_id, size, align).unaligned_size >= base.unaligned_size,
        derived_layout(base, base_id, size, align).size >= link_size(),
        derived_layout(base, base_id, size, align).align % base.align == 0,
        derived_layout(base, base_id, size, align).align % link_align() == 0,
{
    let l = derived_layout(base, base_id, size, align);
    reveal(is_pow2);
    assert(align > 0 && base.align > 0 && link_align() > 0);
    lemma_align_up(base.unaligned_size, align);
    lemma_pow2_max(base.align, align);
    lemma_pow2_max(max(base.align, align), link_align());
    let m = max(base.align, align);
    lemma_mod_trans(l.align, m, base.align);
    lemma_mod_trans(l.align, m, align);
    lemma_align_up(max(l.unaligned_size, link_size()), l.align);
}

/// Computes the layout of the archetype of a component of type `T` without
/// a base.
pub fn root_layout_of<T>() -> (l: ArchetypeLayout)
    ensures
        l@ == root_layout(size_of::<T>() as int, align_of::<T>() as int),
        layout_wf(l@),
{
    proof {
        lemma_type_layout::<T>();
        lemma_type_layout::<Option<usize>>();
    }
    vstd::layout::layout_for_type_is_valid::<T>();
    vstd::layout::layout_for_type_is_valid::<Option<usize>>();
    let size = core::mem::size_of::<T>();
    let align = core::mem::align_of::<T>();
    let link_size = core::mem::size_of::<Option<usize>>();
    let link_align = core::mem::align_of::<Option<usize>>();
    proof {
        lemma_root_layout_fits(size as int, align as int);
        lemma_root_layout_wf(size as int, align as int);
    }
    let m = if size >= align {
        size
    } else {
        align
    };
    let padded = if m >= link_size {
        m
    } else {
        link_size
    };
    let row_align = if align >= link_align {
        align
    } else {
        link_align
    };
    let l = ArchetypeLayout {
        unaligned_size: m,
        size: round_up(padded, row_align),
        align: row_align,
        offset: 0,
        index: 0,
        except_self: Vec::new(),
        field_size: Ghost(size as int),
        field_align: Ghost(align as int),
    };
    assert(l@.except_self =~= Seq::<usize>::empty());
    l
}

/// Computes the layout of the archetype of a component of type `T` whose
/// base is the component `base_id`, with layout `base`.
pub fn derived_layout_of<T>(base: &ArchetypeLayout, base_id: usize) -> (l: ArchetypeLayout)
    requires
        layout_wf(base@),
        derived_layout_fits(base@, size_of::<T>() as int, align_of::<T>() as int),
    ensures
        l@ == derived_layout(base@, base_id, size_of::<T>() as int, align_of::<T>() as int),
        layout_wf(l@),
{
    proof {
        lemma_type_layout::<T>();
        lemma_type_layout::<Option<usize>>();
        lemma_derived_layout_wf(base@, base_id, size_of::<T>() as int, align_of::<T>() as int);
    }
    vstd::layout::layout_for_type_is_valid::<T>();
    vstd::layout::layout_for_type_is_valid::<Option<usize>>();
    let t_size = core::mem::size_of::<T>();
    let t_align = core::mem::align_of::<T>();
    let link_size = core::mem::size_of::<Option<usize>>();
    let link_align = core::mem::align_of::<Option<usize>>();
    let a1 = if base.align >= t_align {
        base.align
    } else {
        t_align
    };
    let row_align = if a1 >= link_align {
        a1
    } else {
        link_align
    };
    let offset = round_up(base.unaligned_size, t_align);
    let unaligned = offset + t_size;
    let padded = if unaligned >= link_size {
        unaligned
    } else {
        link_size
    };
    let size = round_up(padded, row_align);
    let mut except_self: Vec<usize> = Vec::new();
    let mut i: usize = 0;
    while i < base.except_self.len()
        invariant
            i <= base.except_self@.len(),
            except_self@ == base.except_self@.subrange(0, i as int),
        decreases base.except_self@.len() - i,
    {
        except_self.push(base.except_self[i]);
        i = i + 1;
        assert(except_self@ =~= base.except_self@.subrange(0, i as int));
    }
    except_self.push(base_id);
    assert(except_self@ =~= base@.except_self.push(base_id));
    ArchetypeLayout {
        unaligned_size: unaligned,
        size: size,
        align: row_align,
        offset: offset,
        index: base.index + 1,
        except_self: except_self,
        field_size: Ghost(t_size as int),
        field_align: Ghost(t_align as int),
    }
}


} // verus!
