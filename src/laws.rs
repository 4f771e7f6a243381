use crate::diff::{
    missing, under, KindView,
    compare_spec, compat_matrix, compat_row, embeds, inclusive_items, inclusive_members,
    is_first_key, key_position, lemma_under_concat, lemma_under_empty, left_members,
    right_only_members, strict_items, CompareMode, Config, DifferenceView,
};
use crate::path::KeyView;
use crate::matching::{all_free, assigns_from};
use crate::number::lemma_numbers_agree_equivalence;
use crate::value::{
    lemma_items_well_formed, lemma_members_well_formed, unique_keys, well_formed, ValueView,
};
use vstd::prelude::*;

verus! {

/// Row `j` of the compatibility of one element against the container.
proof fn lemma_compat_row(ls: Seq<ValueView>, r: ValueView, cfg: Config, n: int)
    requires
        0 <= n <= ls.len(),
    ensures
        compat_row(ls, r, cfg, n).len() == n,
        forall|j: int|
            0 <= j < n ==> #[trigger] compat_row(ls, r, cfg, n)[j] == (compare_spec(ls[j], r, cfg).len()
                == 0),
    decreases n,
{
    if n > 0 {
        lemma_compat_row(ls, r, cfg, n - 1);
    }
}

/// Row `i` of the compatibility matrix belongs to contained element `i`.
proof fn lemma_compat_matrix(ls: Seq<ValueView>, rs: Seq<ValueView>, cfg: Config, n: int)
    requires
        0 <= n <= rs.len(),
    ensures
        compat_matrix(ls, rs, cfg, n).len() == n,
        forall|i: int|
            0 <= i < n ==> #[trigger] compat_matrix(ls, rs, cfg, n)[i] == compat_row(
                ls,
                rs[i],
                cfg,
                ls.len() as int,
            ),
    decreases n,
{
    if n > 0 {
        lemma_compat_matrix(ls, rs, cfg, n - 1);
    }
}

/// In an object with unique keys, each member is the first with its key.
proof fn lemma_key_position_of_member(members: Seq<(Seq<char>, ValueView)>, k: int)
    requires
        unique_keys(members),
        0 <= k < members.len(),
    ensures
        key_position(members, members[k].0) == Some(k),
{
    let key = members[k].0;
    assert(is_first_key(members, key, k));
    let c = choose|c: int| is_first_key(members, key, c);
    assert(c == k) by {
        if c < k {
            assert(members[c].0 != key);
        } else if c > k {
            assert(members[k].0 != key);
        }
    }
}

proof fn lemma_strict_items_reflexive(items: Seq<ValueView>, cfg: Config, n: int)
    requires
        0 <= n <= items.len(),
        forall|i: int|
            0 <= i < items.len() ==> #[trigger] compare_spec(items[i], items[i], cfg)
                == Seq::<DifferenceView>::empty(),
    ensures
        strict_items(items, items, cfg, n) == Seq::<DifferenceView>::empty(),
    decreases n,
{
    if n > 0 {
        let i = n - 1;
        lemma_strict_items_reflexive(items, cfg, i);
        assert(compare_spec(items[i], items[i], cfg) == Seq::<DifferenceView>::empty());
        lemma_under_empty(seq![crate::path::KeyView::Idx(i as nat)]);
        assert(strict_items(items, items, cfg, n) == strict_items(items, items, cfg, i) + under(
            seq![crate::path::KeyView::Idx(i as nat)],
            compare_spec(items[i], items[i], cfg),
        ));
        assert(strict_items(items, items, cfg, n) =~= Seq::<DifferenceView>::empty());
    }
}

proof fn lemma_inclusive_items_reflexive(items: Seq<ValueView>, cfg: Config, n: int)
    requires
        0 <= n <= items.len(),
        forall|i: int|
            0 <= i < items.len() ==> #[trigger] compare_spec(items[i], items[i], cfg)
                == Seq::<DifferenceView>::empty(),
    ensures
        inclusive_items(items, items, cfg, n) == Seq::<DifferenceView>::empty(),
    decreases n,
{
    if n > 0 {
        let i = n - 1;
        lemma_inclusive_items_reflexive(items, cfg, i);
        assert(compare_spec(items[i], items[i], cfg) == Seq::<DifferenceView>::empty());
        lemma_under_empty(seq![crate::path::KeyView::Idx(i as nat)]);
        assert(inclusive_items(items, items, cfg, n) == inclusive_items(items, items, cfg, i) + under(
            seq![crate::path::KeyView::Idx(i as nat)],
            compare_spec(items[i], items[i], cfg),
        ));
        assert(inclusive_items(items, items, cfg, n) =~= Seq::<DifferenceView>::empty());
    }
}

proof fn lemma_members_reflexive(members: Seq<(Seq<char>, ValueView)>, cfg: Config, n: int)
    requires
        0 <= n <= members.len(),
        unique_keys(members),
        forall|i: int|
            0 <= i < members.len() ==> #[trigger] compare_spec(members[i].1, members[i].1, cfg)
                == Seq::<DifferenceView>::empty(),
    ensures
        left_members(members, members, cfg, n) == Seq::<DifferenceView>::empty(),
        right_only_members(members, members, n) == Seq::<DifferenceView>::empty(),
        inclusive_members(members, members, cfg, n) == Seq::<DifferenceView>::empty(),
    decreases n,
{
    if n > 0 {
        let k = n - 1;
        lemma_members_reflexive(members, cfg, k);
        lemma_key_position_of_member(members, k);
        let key = members[k].0;
        assert(compare_spec(members[k].1, members[k].1, cfg) == Seq::<DifferenceView>::empty());
        lemma_under_empty(seq![crate::path::KeyView::Field(key)]);
        assert(left_members(members, members, cfg, n) == left_members(members, members, cfg, k)
            + under(seq![crate::path::KeyView::Field(key)], compare_spec(members[k].1, members[k].1, cfg)));
        assert(inclusive_members(members, members, cfg, n) == inclusive_members(members, members, cfg, k)
            + under(seq![crate::path::KeyView::Field(key)], compare_spec(members[k].1, members[k].1, cfg)));
        assert(left_members(members, members, cfg, n) =~= Seq::<DifferenceView>::empty());
        assert(right_only_members(members, members, n) =~= Seq::<DifferenceView>::empty());
        assert(inclusive_members(members, members, cfg, n) =~= Seq::<DifferenceView>::empty());
    }
}

/// Every array embeds into itself, each element matched with itself.
proof fn lemma_embeds_itself(items: Seq<ValueView>, cfg: Config)
    requires
        forall|i: int|
            0 <= i < items.len() ==> #[trigger] compare_spec(items[i], items[i], cfg)
                == Seq::<DifferenceView>::empty(),
    ensures
        embeds(items, items, cfg),
{
    let n = items.len() as int;
    let mm = compat_matrix(items, items, cfg, n);
    lemma_compat_matrix(items, items, cfg, n);
    let f = Seq::new(n as nat, |i: int| i);
    assert forall|k: int| 0 <= k < f.len() implies 0 <= #[trigger] f[k] < n && !all_free(n)[f[k]]
        && mm[0 + k][f[k]] by {
        lemma_compat_row(items, items[k], cfg, n);
        assert(mm[k] == compat_row(items, items[k], cfg, n));
    }
    assert(assigns_from(mm, n, 0, all_free(n), f));
}

/// A well-formed tree shows no difference from itself, under any settings.
pub proof fn lemma_compare_reflexive(v: ValueView, cfg: Config)
    requires
        well_formed(v),
    ensures
        compare_spec(v, v, cfg) == Seq::<DifferenceView>::empty(),
    decreases v,
{
    match v {
        ValueView::Number(n) => {
            lemma_numbers_agree_equivalence(n, n, cfg.numeric_mode);
        },
        ValueView::Array(items) => {
            lemma_items_well_formed(items, items.len() as int);
            assert forall|i: int| 0 <= i < items.len() implies #[trigger] compare_spec(
                items[i],
                items[i],
                cfg,
            ) == Seq::<DifferenceView>::empty() by {
                lemma_compare_reflexive(items[i], cfg);
            }
            match cfg.compare_mode {
                CompareMode::Strict => lemma_strict_items_reflexive(items, cfg, items.len() as int),
                CompareMode::Inclusive => lemma_inclusive_items_reflexive(
                    items,
                    cfg,
                    items.len() as int,
                ),
                CompareMode::Contains => lemma_embeds_itself(items, cfg),
            }
        },
        ValueView::Object(members) => {
            lemma_members_well_formed(members, members.len() as int);
            assert forall|i: int| 0 <= i < members.len() implies #[trigger] compare_spec(
                members[i].1,
                members[i].1,
                cfg,
            ) == Seq::<DifferenceView>::empty() by {
                lemma_compare_reflexive(members[i].1, cfg);
            }
            lemma_members_reflexive(members, cfg, members.len() as int);
        },
        _ => {},
    }
}

/// The same difference with its two sides exchanged.
pub open spec fn swapped(d: DifferenceView) -> DifferenceView {
    DifferenceView {
        path: d.path,
        kind: match d.kind {
            KindView::NotEqual(l, r) => KindView::NotEqual(r, l),
            KindView::MissingFromLeft => KindView::MissingFromRight,
            KindView::MissingFromRight => KindView::MissingFromLeft,
        },
    }
}

/// Each difference of `xs`, its sides exchanged, is among `ys`.
pub open spec fn mirrored(xs: Seq<DifferenceView>, ys: Seq<DifferenceView>) -> bool {
    forall|i: int| 0 <= i < xs.len() ==> ys.contains(swapped(#[trigger] xs[i]))
}

/// Each difference of `xs` is among `ys`.
pub open spec fn included(xs: Seq<DifferenceView>, ys: Seq<DifferenceView>) -> bool {
    forall|i: int| 0 <= i < xs.len() ==> ys.contains(#[trigger] xs[i])
}

/// What position `i` adds to a strict comparison of arrays.
pub open spec fn strict_slot(ls: Seq<ValueView>, rs: Seq<ValueView>, cfg: Config, i: int) -> Seq<
    DifferenceView,
> {
    if i < ls.len() && i < rs.len() {
        under(seq![KeyView::Idx(i as nat)], compare_spec(ls[i], rs[i], cfg))
    } else if i < ls.len() {
        missing(KeyView::Idx(i as nat), KindView::MissingFromRight)
    } else {
        missing(KeyView::Idx(i as nat), KindView::MissingFromLeft)
    }
}

/// What left member `k` adds to a strict comparison of objects.
pub open spec fn left_slot(
    lm: Seq<(Seq<char>, ValueView)>,
    rm: Seq<(Seq<char>, ValueView)>,
    cfg: Config,
    k: int,
) -> Seq<DifferenceView> {
    let key = lm[k].0;
    match key_position(rm, key) {
        Some(j) => under(seq![KeyView::Field(key)], compare_spec(lm[k].1, rm[j].1, cfg)),
        None => missing(KeyView::Field(key), KindView::MissingFromRight),
    }
}

/// What right member `j` adds when the left object lacks its key.
pub open spec fn right_only_slot(
    lm: Seq<(Seq<char>, ValueView)>,
    rm: Seq<(Seq<char>, ValueView)>,
    j: int,
) -> Seq<DifferenceView> {
    if key_position(lm, rm[j].0) is None {
        missing(KeyView::Field(rm[j].0), KindView::MissingFromLeft)
    } else {
        Seq::empty()
    }
}

proof fn lemma_concat_contains(a: Seq<DifferenceView>, b: Seq<DifferenceView>, x: DifferenceView)
    ensures
        a.contains(x) ==> (a + b).contains(x),
        b.contains(x) ==> (a + b).contains(x),
{
    if a.contains(x) {
        let j = choose|j: int| 0 <= j < a.len() && a[j] == x;
        assert((a + b)[j] == x);
    }
    if b.contains(x) {
        let j = choose|j: int| 0 <= j < b.len() && b[j] == x;
        assert((a + b)[a.len() + j] == x);
    }
}

proof fn lemma_mirrored_concat(
    a: Seq<DifferenceView>,
    b: Seq<DifferenceView>,
    c: Seq<DifferenceView>,
    d: Seq<DifferenceView>,
)
    requires
        mirrored(a, c),
        mirrored(b, d),
    ensures
        mirrored(a + b, c + d),
{
    assert forall|i: int| 0 <= i < (a + b).len() implies (c + d).contains(
        swapped(#[trigger] (a + b)[i]),
    ) by {
        if i < a.len() {
            assert((a + b)[i] == a[i]);
            lemma_concat_contains(c, d, swapped(a[i]));
        } else {
            assert((a + b)[i] == b[i - a.len()]);
            lemma_concat_contains(c, d, swapped(b[i - a.len()]));
        }
    }
}

proof fn lemma_mirrored_into_included(
    a: Seq<DifferenceView>,
    b: Seq<DifferenceView>,
    c: Seq<DifferenceView>,
)
    requires
        mirrored(a, b),
        included(b, c),
    ensures
        mirrored(a, c),
{
    assert forall|i: int| 0 <= i < a.len() implies c.contains(swapped(#[trigger] a[i])) by {
        assert(b.contains(swapped(a[i])));
        let j = choose|j: int| 0 <= j < b.len() && b[j] == swapped(a[i]);
        assert(c.contains(b[j]));
    }
}

proof fn lemma_mirrored_join(a: Seq<DifferenceView>, b: Seq<DifferenceView>, c: Seq<DifferenceView>)
    requires
        mirrored(a, c),
        mirrored(b, c),
    ensures
        mirrored(a + b, c),
{
    assert forall|i: int| 0 <= i < (a + b).len() implies c.contains(
        swapped(#[trigger] (a + b)[i]),
    ) by {
        if i < a.len() {
            assert((a + b)[i] == a[i]);
        } else {
            assert((a + b)[i] == b[i - a.len()]);
        }
    }
}

proof fn lemma_included_concat(a: Seq<DifferenceView>, b: Seq<DifferenceView>, c: Seq<DifferenceView>)
    requires
        included(a, b),
    ensures
        included(a, b + c),
        included(a, c + b),
{
    assert forall|i: int| 0 <= i < a.len() implies (b + c).contains(#[trigger] a[i]) by {
        lemma_concat_contains(b, c, a[i]);
    }
    assert forall|i: int| 0 <= i < a.len() implies (c + b).contains(#[trigger] a[i]) by {
        lemma_concat_contains(c, b, a[i]);
    }
}

proof fn lemma_included_self(a: Seq<DifferenceView>)
    ensures
        included(a, a),
{
    assert forall|i: int| 0 <= i < a.len() implies a.contains(#[trigger] a[i]) by {}
}

/// Moving differences below a path keeps their mirror images.
proof fn lemma_mirrored_under(p: Seq<KeyView>, xs: Seq<DifferenceView>, ys: Seq<DifferenceView>)
    requires
        mirrored(xs, ys),
    ensures
        mirrored(under(p, xs), under(p, ys)),
{
    assert forall|i: int| 0 <= i < under(p, xs).len() implies under(p, ys).contains(
        swapped(#[trigger] under(p, xs)[i]),
    ) by {
        assert(ys.contains(swapped(xs[i])));
        let j = choose|j: int| 0 <= j < ys.len() && ys[j] == swapped(xs[i]);
        assert(under(p, ys)[j] == swapped(under(p, xs)[i]));
    }
}

proof fn lemma_strict_items_step(ls: Seq<ValueView>, rs: Seq<ValueView>, cfg: Config, n: int)
    requires
        n > 0,
    ensures
        strict_items(ls, rs, cfg, n) == strict_items(ls, rs, cfg, n - 1) + strict_slot(
            ls,
            rs,
            cfg,
            n - 1,
        ),
{
}

proof fn lemma_left_members_step(
    lm: Seq<(Seq<char>, ValueView)>,
    rm: Seq<(Seq<char>, ValueView)>,
    cfg: Config,
    n: int,
)
    requires
        0 < n <= lm.len(),
    ensures
        left_members(lm, rm, cfg, n) == left_members(lm, rm, cfg, n - 1) + left_slot(
            lm,
            rm,
            cfg,
            n - 1,
        ),
{
}

proof fn lemma_right_only_step(
    lm: Seq<(Seq<char>, ValueView)>,
    rm: Seq<(Seq<char>, ValueView)>,
    n: int,
)
    requires
        0 < n <= rm.len(),
    ensures
        right_only_members(lm, rm, n) == right_only_members(lm, rm, n - 1) + right_only_slot(
            lm,
            rm,
            n - 1,
        ),
{
}

proof fn lemma_left_members_include(
    lm: Seq<(Seq<char>, ValueView)>,
    rm: Seq<(Seq<char>, ValueView)>,
    cfg: Config,
    n: int,
    k: int,
)
    requires
        0 <= k < n <= lm.len(),
    ensures
        included(left_slot(lm, rm, cfg, k), left_members(lm, rm, cfg, n)),
    decreases n,
{
    lemma_left_members_step(lm, rm, cfg, n);
    lemma_included_self(left_slot(lm, rm, cfg, n - 1));
    if k == n - 1 {
        lemma_included_concat(left_slot(lm, rm, cfg, k), left_slot(lm, rm, cfg, k), left_members(lm, rm, cfg, n - 1));
    } else {
        lemma_left_members_include(lm, rm, cfg, n - 1, k);
        lemma_included_concat(left_slot(lm, rm, cfg, k), left_members(lm, rm, cfg, n - 1), left_slot(lm, rm, cfg, n - 1));
    }
}

proof fn lemma_right_only_include(
    lm: Seq<(Seq<char>, ValueView)>,
    rm: Seq<(Seq<char>, ValueView)>,
    n: int,
    j: int,
)
    requires
        0 <= j < n <= rm.len(),
    ensures
        included(right_only_slot(lm, rm, j), right_only_members(lm, rm, n)),
    decreases n,
{
    lemma_right_only_step(lm, rm, n);
    lemma_included_self(right_only_slot(lm, rm, n - 1));
    if j == n - 1 {
        lemma_included_concat(right_only_slot(lm, rm, j), right_only_slot(lm, rm, j), right_only_members(lm, rm, n - 1));
    } else {
        lemma_right_only_include(lm, rm, n - 1, j);
        lemma_included_concat(right_only_slot(lm, rm, j), right_only_members(lm, rm, n - 1), right_only_slot(lm, rm, n - 1));
    }
}

proof fn lemma_strict_items_mirrored(ls: Seq<ValueView>, rs: Seq<ValueView>, cfg: Config, n: int)
    requires
        0 <= n,
        n <= ls.len() || n <= rs.len(),
        forall|i: int|
            0 <= i < ls.len() && i < rs.len() ==> #[trigger] mirrored(
                compare_spec(ls[i], rs[i], cfg),
                compare_spec(rs[i], ls[i], cfg),
            ),
    ensures
        mirrored(strict_items(ls, rs, cfg, n), strict_items(rs, ls, cfg, n)),
    decreases n,
{
    if n > 0 {
        let i = n - 1;
        lemma_strict_items_mirrored(ls, rs, cfg, i);
        lemma_strict_items_step(ls, rs, cfg, n);
        lemma_strict_items_step(rs, ls, cfg, n);
        let a = strict_slot(ls, rs, cfg, i);
        let c = strict_slot(rs, ls, cfg, i);
        if i < ls.len() && i < rs.len() {
            assert(mirrored(compare_spec(ls[i], rs[i], cfg), compare_spec(rs[i], ls[i], cfg)));
            lemma_mirrored_under(
                seq![KeyView::Idx(i as nat)],
                compare_spec(ls[i], rs[i], cfg),
                compare_spec(rs[i], ls[i], cfg),
            );
        } else {
            assert(c[0] == swapped(a[0]));
            assert(mirrored(a, c));
        }
        lemma_mirrored_concat(strict_items(ls, rs, cfg, i), a, strict_items(rs, ls, cfg, i), c);
    }
}

/// The keys that a member's key position reports hold that key.
proof fn lemma_key_position_holds_key(members: Seq<(Seq<char>, ValueView)>, key: Seq<char>)
    ensures
        key_position(members, key) matches Some(j) ==> 0 <= j < members.len() && members[j].0
            == key,
{
}

proof fn lemma_object_mirrored(
    lm: Seq<(Seq<char>, ValueView)>,
    rm: Seq<(Seq<char>, ValueView)>,
    cfg: Config,
)
    requires
        unique_keys(lm),
        unique_keys(rm),
        forall|k: int, j: int|
            0 <= k < lm.len() && 0 <= j < rm.len() ==> #[trigger] mirrored(
                compare_spec(lm[k].1, rm[j].1, cfg),
                compare_spec(rm[j].1, lm[k].1, cfg),
            ),
    ensures
        mirrored(
            left_members(lm, rm, cfg, lm.len() as int) + right_only_members(lm, rm, rm.len() as int),
            left_members(rm, lm, cfg, rm.len() as int) + right_only_members(rm, lm, lm.len() as int),
        ),
{
    let back = left_members(rm, lm, cfg, rm.len() as int) + right_only_members(
        rm,
        lm,
        lm.len() as int,
    );
    // each left member's contribution has its mirror image in the reverse comparison
    assert forall|k: int| 0 <= k < lm.len() implies #[trigger] mirrored(
        left_slot(lm, rm, cfg, k),
        back,
    ) by {
        let key = lm[k].0;
        lemma_key_position_holds_key(rm, key);
        match key_position(rm, key) {
            Some(j) => {
                lemma_key_position_of_member(lm, k);
                assert(left_slot(rm, lm, cfg, j) == under(
                    seq![KeyView::Field(key)],
                    compare_spec(rm[j].1, lm[k].1, cfg),
                ));
                lemma_mirrored_under(
                    seq![KeyView::Field(key)],
                    compare_spec(lm[k].1, rm[j].1, cfg),
                    compare_spec(rm[j].1, lm[k].1, cfg),
                );
                lemma_left_members_include(rm, lm, cfg, rm.len() as int, j);
                lemma_included_concat(
                    left_slot(rm, lm, cfg, j),
                    left_members(rm, lm, cfg, rm.len() as int),
                    right_only_members(rm, lm, lm.len() as int),
                );
                lemma_mirrored_into_included(
                    left_slot(lm, rm, cfg, k),
                    left_slot(rm, lm, cfg, j),
                    back,
                );
            },
            None => {
                let a = left_slot(lm, rm, cfg, k);
                let c = right_only_slot(rm, lm, k);
                assert(key_position(rm, lm[k].0) is None);
                assert(a == missing(KeyView::Field(key), KindView::MissingFromRight));
                assert(c == missing(KeyView::Field(key), KindView::MissingFromLeft));
                assert(c[0] == swapped(a[0]));
                assert(mirrored(a, c));
                lemma_right_only_include(rm, lm, lm.len() as int, k);
                lemma_included_concat(
                    c,
                    right_only_members(rm, lm, lm.len() as int),
                    left_members(rm, lm, cfg, rm.len() as int),
                );
                lemma_mirrored_into_included(a, c, back);
            },
        }
    }
    assert forall|j: int| 0 <= j < rm.len() implies #[trigger] mirrored(
        right_only_slot(lm, rm, j),
        back,
    ) by {
        let key = rm[j].0;
        if key_position(lm, key) is None {
            let a = right_only_slot(lm, rm, j);
            let c = left_slot(rm, lm, cfg, j);
            assert(c[0] == swapped(a[0]));
            assert(mirrored(a, c));
            lemma_left_members_include(rm, lm, cfg, rm.len() as int, j);
            lemma_included_concat(
                c,
                left_members(rm, lm, cfg, rm.len() as int),
                right_only_members(rm, lm, lm.len() as int),
            );
            lemma_mirrored_into_included(a, c, back);
        }
    }
    lemma_left_members_mirrored(lm, rm, cfg, lm.len() as int, back);
    lemma_right_only_mirrored(lm, rm, rm.len() as int, back);
    lemma_mirrored_join(
        left_members(lm, rm, cfg, lm.len() as int),
        right_only_members(lm, rm, rm.len() as int),
        back,
    );
}

proof fn lemma_left_members_mirrored(
    lm: Seq<(Seq<char>, ValueView)>,
    rm: Seq<(Seq<char>, ValueView)>,
    cfg: Config,
    n: int,
    back: Seq<DifferenceView>,
)
    requires
        0 <= n <= lm.len(),
        forall|k: int| 0 <= k < lm.len() ==> #[trigger] mirrored(left_slot(lm, rm, cfg, k), back),
    ensures
        mirrored(left_members(lm, rm, cfg, n), back),
    decreases n,
{
    if n > 0 {
        lemma_left_members_mirrored(lm, rm, cfg, n - 1, back);
        lemma_left_members_step(lm, rm, cfg, n);
        assert(mirrored(left_slot(lm, rm, cfg, n - 1), back));
        lemma_mirrored_join(left_members(lm, rm, cfg, n - 1), left_slot(lm, rm, cfg, n - 1), back);
    }
}

proof fn lemma_right_only_mirrored(
    lm: Seq<(Seq<char>, ValueView)>,
    rm: Seq<(Seq<char>, ValueView)>,
    n: int,
    back: Seq<DifferenceView>,
)
    requires
        0 <= n <= rm.len(),
        forall|j: int| 0 <= j < rm.len() ==> #[trigger] mirrored(right_only_slot(lm, rm, j), back),
    ensures
        mirrored(right_only_members(lm, rm, n), back),
    decreases n,
{
    if n > 0 {
        lemma_right_only_mirrored(lm, rm, n - 1, back);
        lemma_right_only_step(lm, rm, n);
        assert(mirrored(right_only_slot(lm, rm, n - 1), back));
        lemma_mirrored_join(right_only_members(lm, rm, n - 1), right_only_slot(lm, rm, n - 1), back);
    }
}

/// Each strict difference of `a` from `b`, sides exchanged, is a
/// difference of `b` from `a`.
proof fn lemma_strict_mirrored(a: ValueView, b: ValueView, cfg: Config)
    requires
        cfg.compare_mode == CompareMode::Strict,
        well_formed(a),
        well_formed(b),
    ensures
        mirrored(compare_spec(a, b, cfg), compare_spec(b, a, cfg)),
    decreases a,
{
    match (a, b) {
        (ValueView::Array(ls), ValueView::Array(rs)) => {
            lemma_items_well_formed(ls, ls.len() as int);
            lemma_items_well_formed(rs, rs.len() as int);
            assert forall|i: int| 0 <= i < ls.len() && i < rs.len() implies #[trigger] mirrored(
                compare_spec(ls[i], rs[i], cfg),
                compare_spec(rs[i], ls[i], cfg),
            ) by {
                lemma_strict_mirrored(ls[i], rs[i], cfg);
            }
            let n = if ls.len() >= rs.len() {
                ls.len() as int
            } else {
                rs.len() as int
            };
            lemma_strict_items_mirrored(ls, rs, cfg, n);
        },
        (ValueView::Object(lm), ValueView::Object(rm)) => {
            lemma_members_well_formed(lm, lm.len() as int);
            lemma_members_well_formed(rm, rm.len() as int);
            assert forall|k: int, j: int| 0 <= k < lm.len() && 0 <= j < rm.len() implies #[trigger] mirrored(
                compare_spec(lm[k].1, rm[j].1, cfg),
                compare_spec(rm[j].1, lm[k].1, cfg),
            ) by {
                lemma_strict_mirrored(lm[k].1, rm[j].1, cfg);
            }
            lemma_object_mirrored(lm, rm, cfg);
        },
        (ValueView::Number(x), ValueView::Number(y)) => {
            lemma_numbers_agree_equivalence(x, y, cfg.numeric_mode);
            let ab = compare_spec(a, b, cfg);
            let ba = compare_spec(b, a, cfg);
            if ab.len() > 0 {
                assert(ba[0] == swapped(ab[0]));
            }
        },
        _ => {
            let ab = compare_spec(a, b, cfg);
            let ba = compare_spec(b, a, cfg);
            if ab.len() > 0 {
                assert(ba[0] == swapped(ab[0]));
            }
        },
    }
}

/// Comparing strictly the other way round finds the same differences, with
/// the two sides of each exchanged: a value missing from the left becomes
/// missing from the right, and the reverse.
pub proof fn lemma_strict_compare_symmetric(a: ValueView, b: ValueView, cfg: Config)
    requires
        cfg.compare_mode == CompareMode::Strict,
        well_formed(a),
        well_formed(b),
    ensures
        compare_spec(b, a, cfg).to_set() == compare_spec(a, b, cfg).map_values(
            |d: DifferenceView| swapped(d),
        ).to_set(),
{
    let ab = compare_spec(a, b, cfg);
    let ba = compare_spec(b, a, cfg);
    let image = ab.map_values(|d: DifferenceView| swapped(d));
    lemma_strict_mirrored(a, b, cfg);
    lemma_strict_mirrored(b, a, cfg);
    assert forall|x: DifferenceView| ba.to_set().contains(x) <==> image.to_set().contains(x) by {
        if ba.contains(x) {
            let i = choose|i: int| 0 <= i < ba.len() && ba[i] == x;
            assert(ab.contains(swapped(ba[i])));
            let j = choose|j: int| 0 <= j < ab.len() && ab[j] == swapped(ba[i]);
            assert(swapped(swapped(x)) == x);
            assert(image[j] == x);
        }
        if image.contains(x) {
            let j = choose|j: int| 0 <= j < image.len() && image[j] == x;
            assert(ba.contains(swapped(ab[j])));
        }
    }
    assert(ba.to_set() =~= image.to_set());
}

} // verus!
