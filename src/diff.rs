use crate::matching::{assign_rows, has_assignment};
use crate::number::{numbers_agree, numbers_equal, NumericMode};
use crate::path::{Key, KeyView, Path};
use crate::value::{
    copy_value, items_view, lemma_items_view, lemma_members_view, members_view, value_view, Value,
    ValueView,
};
use vstd::prelude::*;

verus! {

/// How the children of two arrays or two objects are reconciled.
#[derive(Clone, Copy, Debug, PartialEq, Eq)]
pub enum CompareMode {
    /// Both sides must hold the same children.
    Strict,
    /// The right side is the expected part: the left may hold more.
    Inclusive,
    /// As `Inclusive`, but arrays match as multisets: each expected element
    /// needs its own matching element on the left, in any order.
    Contains,
}

/// The settings of one comparison.
#[derive(Clone, Copy, Debug, PartialEq, Eq)]
pub struct Config {
    pub compare_mode: CompareMode,
    pub numeric_mode: NumericMode,
}

impl Config {
    /// The settings that [`Config::new`] makes.
    pub open spec fn new_spec(compare_mode: CompareMode) -> Config {
        Config { compare_mode, numeric_mode: NumericMode::Strict }
    }

    /// Settings with the given compare mode and strict numbers.
    pub fn new(compare_mode: CompareMode) -> (r: Config)
        ensures
            r.compare_mode == compare_mode,
            r.numeric_mode == NumericMode::Strict,
    {
        Config { compare_mode, numeric_mode: NumericMode::Strict }
    }

    /// The same settings with another numeric mode.
    pub fn numeric_mode(self, numeric_mode: NumericMode) -> (r: Config)
        ensures
            r.compare_mode == self.compare_mode,
            r.numeric_mode == numeric_mode,
    {
        Config { compare_mode: self.compare_mode, numeric_mode }
    }

    /// The same settings with another compare mode.
    pub fn compare_mode(self, compare_mode: CompareMode) -> (r: Config)
        ensures
            r.compare_mode == compare_mode,
            r.numeric_mode == self.numeric_mode,
    {
        Config { compare_mode, numeric_mode: self.numeric_mode }
    }
}

/// The two usual settings: an inclusive or an exact match, with strict numbers.
#[derive(Clone, Copy, Debug, PartialEq, Eq)]
pub enum Mode {
    Lenient,
    Strict,
}

/// The settings a [`Mode`] stands for.
pub open spec fn mode_config(mode: Mode) -> Config {
    Config {
        compare_mode: match mode {
            Mode::Lenient => CompareMode::Inclusive,
            Mode::Strict => CompareMode::Strict,
        },
        numeric_mode: NumericMode::Strict,
    }
}

impl Mode {
    /// The settings this mode stands for.
    pub fn config(self) -> (r: Config)
        ensures
            r == mode_config(self),
    {
        match self {
            Mode::Lenient => Config::new(CompareMode::Inclusive),
            Mode::Strict => Config::new(CompareMode::Strict),
        }
    }
}

/// What is wrong at a location.
#[derive(Debug, PartialEq)]
pub enum DifferenceKind {
    /// Both sides hold a value there, and they disagree: left, then right.
    NotEqual(Value, Value),
    /// Only the right side holds a value there.
    MissingFromLeft,
    /// Only the left side holds a value there.
    MissingFromRight,
}

/// One location at which two trees disagree.
#[derive(Debug, PartialEq)]
pub struct Difference {
    pub path: Path,
    pub kind: DifferenceKind,
}

/// The mathematical content of a [`DifferenceKind`].
pub enum KindView {
    NotEqual(ValueView, ValueView),
    MissingFromLeft,
    MissingFromRight,
}

/// The mathematical content of a [`Difference`].
pub struct DifferenceView {
    pub path: Seq<KeyView>,
    pub kind: KindView,
}

impl View for DifferenceKind {
    type V = KindView;

    open spec fn view(&self) -> KindView {
        match self {
            DifferenceKind::NotEqual(l, r) => KindView::NotEqual(l@, r@),
            DifferenceKind::MissingFromLeft => KindView::MissingFromLeft,
            DifferenceKind::MissingFromRight => KindView::MissingFromRight,
        }
    }
}

impl View for Difference {
    type V = DifferenceView;

    open spec fn view(&self) -> DifferenceView {
        DifferenceView { path: self.path@, kind: self.kind@ }
    }
}

/// The content of each difference, in order.
pub open spec fn differences_view(ds: Seq<Difference>) -> Seq<DifferenceView> {
    ds.map_values(|d: Difference| d@)
}

/// One disagreement of whole values at the current location.
pub open spec fn here(l: ValueView, r: ValueView) -> Seq<DifferenceView> {
    seq![DifferenceView { path: Seq::empty(), kind: KindView::NotEqual(l, r) }]
}

/// A child that only one side holds.
pub open spec fn missing(k: KeyView, kind: KindView) -> Seq<DifferenceView> {
    seq![DifferenceView { path: seq![k], kind }]
}

/// The differences moved below the path `p`.
pub open spec fn under(p: Seq<KeyView>, ds: Seq<DifferenceView>) -> Seq<DifferenceView> {
    ds.map_values(|d: DifferenceView| DifferenceView { path: p + d.path, kind: d.kind })
}

/// `i` is the first member of the object with this key.
pub open spec fn is_first_key(members: Seq<(Seq<char>, ValueView)>, key: Seq<char>, i: int) -> bool {
    &&& 0 <= i < members.len()
    &&& members[i].0 == key
    &&& forall|j: int| 0 <= j < i ==> members[j].0 != key
}

/// Where the object holds the key, if it does.
pub open spec fn key_position(members: Seq<(Seq<char>, ValueView)>, key: Seq<char>) -> Option<int> {
    if exists|i: int| is_first_key(members, key, i) {
        Some(choose|i: int| is_first_key(members, key, i))
    } else {
        None
    }
}

/// The differences between two trees, at paths relative to them.
pub open spec fn compare_spec(l: ValueView, r: ValueView, cfg: Config) -> Seq<DifferenceView>
    decreases l, 0int, 0int,
{
    match (l, r) {
        (ValueView::Null, ValueView::Null) => Seq::empty(),
        (ValueView::Bool(a), ValueView::Bool(b)) => if a == b {
            Seq::empty()
        } else {
            here(l, r)
        },
        (ValueView::Number(a), ValueView::Number(b)) => if numbers_agree(a, b, cfg.numeric_mode) {
            Seq::empty()
        } else {
            here(l, r)
        },
        (ValueView::Str(a), ValueView::Str(b)) => if a == b {
            Seq::empty()
        } else {
            here(l, r)
        },
        (ValueView::Array(ls), ValueView::Array(rs)) => match cfg.compare_mode {
            CompareMode::Strict => strict_items(
                ls,
                rs,
                cfg,
                if ls.len() >= rs.len() {
                    ls.len() as int
                } else {
                    rs.len() as int
                },
            ),
            CompareMode::Inclusive => inclusive_items(ls, rs, cfg, rs.len() as int),
            CompareMode::Contains => if rs.len() <= ls.len() && embeds(ls, rs, cfg) {
                Seq::empty()
            } else {
                here(l, r)
            },
        },
        (ValueView::Object(lm), ValueView::Object(rm)) => match cfg.compare_mode {
            CompareMode::Strict => left_members(lm, rm, cfg, lm.len() as int) + right_only_members(
                lm,
                rm,
                rm.len() as int,
            ),
            _ => inclusive_members(lm, rm, cfg, rm.len() as int),
        },
        _ => here(l, r),
    }
}

/// Positions `0..n` of two arrays compared position by position; a
/// position that one side lacks is missing from it.
pub open spec fn strict_items(
    ls: Seq<ValueView>,
    rs: Seq<ValueView>,
    cfg: Config,
    n: int,
) -> Seq<DifferenceView>
    decreases ls, 0int, n,
{
    if n <= 0 {
        Seq::empty()
    } else {
        let i = n - 1;
        strict_items(ls, rs, cfg, i) + if i < ls.len() && i < rs.len() {
            under(seq![KeyView::Idx(i as nat)], compare_spec(ls[i], rs[i], cfg))
        } else if i < ls.len() {
            missing(KeyView::Idx(i as nat), KindView::MissingFromRight)
        } else {
            missing(KeyView::Idx(i as nat), KindView::MissingFromLeft)
        }
    }
}

/// Positions `0..n` of the right array compared with the left one's; the
/// left may be longer.
pub open spec fn inclusive_items(
    ls: Seq<ValueView>,
    rs: Seq<ValueView>,
    cfg: Config,
    n: int,
) -> Seq<DifferenceView>
    decreases ls, 0int, n,
{
    if n <= 0 {
        Seq::empty()
    } else {
        let i = n - 1;
        inclusive_items(ls, rs, cfg, i) + if i < ls.len() {
            under(seq![KeyView::Idx(i as nat)], compare_spec(ls[i], rs[i], cfg))
        } else {
            missing(KeyView::Idx(i as nat), KindView::MissingFromLeft)
        }
    }
}

/// Members `0..n` of the left object against the right one.
pub open spec fn left_members(
    lm: Seq<(Seq<char>, ValueView)>,
    rm: Seq<(Seq<char>, ValueView)>,
    cfg: Config,
    n: int,
) -> Seq<DifferenceView>
    decreases lm, 0int, n,
{
    if n <= 0 || n > lm.len() {
        Seq::empty()
    } else {
        let k = n - 1;
        let key = lm[k].0;
        left_members(lm, rm, cfg, k) + match key_position(rm, key) {
            Some(j) => under(seq![KeyView::Field(key)], compare_spec(lm[k].1, rm[j].1, cfg)),
            None => missing(KeyView::Field(key), KindView::MissingFromRight),
        }
    }
}

/// Members `0..n` of the right object whose keys the left one lacks.
pub open spec fn right_only_members(
    lm: Seq<(Seq<char>, ValueView)>,
    rm: Seq<(Seq<char>, ValueView)>,
    n: int,
) -> Seq<DifferenceView>
    decreases n,
{
    if n <= 0 || n > rm.len() {
        Seq::empty()
    } else {
        let j = n - 1;
        right_only_members(lm, rm, j) + if key_position(lm, rm[j].0) is None {
            missing(KeyView::Field(rm[j].0), KindView::MissingFromLeft)
        } else {
            Seq::empty()
        }
    }
}

/// Members `0..n` of the right object looked up in the left one; the left
/// may hold more.
pub open spec fn inclusive_members(
    lm: Seq<(Seq<char>, ValueView)>,
    rm: Seq<(Seq<char>, ValueView)>,
    cfg: Config,
    n: int,
) -> Seq<DifferenceView>
    decreases lm, 0int, n,
{
    if n <= 0 || n > rm.len() {
        Seq::empty()
    } else {
        let j = n - 1;
        let key = rm[j].0;
        inclusive_members(lm, rm, cfg, j) + match key_position(lm, key) {
            Some(k) => under(seq![KeyView::Field(key)], compare_spec(lm[k].1, rm[j].1, cfg)),
            None => missing(KeyView::Field(key), KindView::MissingFromLeft),
        }
    }
}

/// For each container element `j < n`, whether it shows no difference from `r`.
pub open spec fn compat_row(ls: Seq<ValueView>, r: ValueView, cfg: Config, n: int) -> Seq<bool>
    decreases ls, 0int, n,
{
    if n <= 0 || n > ls.len() {
        Seq::empty()
    } else {
        compat_row(ls, r, cfg, n - 1).push(compare_spec(ls[n - 1], r, cfg).len() == 0)
    }
}

/// The compatibility of contained elements `i < n` with every container
/// element: row `i`, column `j` holds whether `ls[j]` shows no difference
/// from `rs[i]`.
pub open spec fn compat_matrix(ls: Seq<ValueView>, rs: Seq<ValueView>, cfg: Config, n: int) -> Seq<
    Seq<bool>,
>
    decreases ls, 1int, n,
{
    if n <= 0 || n > rs.len() {
        Seq::empty()
    } else {
        compat_matrix(ls, rs, cfg, n - 1).push(compat_row(ls, rs[n - 1], cfg, ls.len() as int))
    }
}

/// Each contained element can be given its own container element that
/// shows no difference from it.
pub open spec fn embeds(ls: Seq<ValueView>, rs: Seq<ValueView>, cfg: Config) -> bool
    decreases ls, 2int, 0int,
{
    has_assignment(compat_matrix(ls, rs, cfg, rs.len() as int), ls.len() as int)
}

/// Moving below a path distributes over concatenation.
pub(crate) proof fn lemma_under_concat(p: Seq<KeyView>, a: Seq<DifferenceView>, b: Seq<DifferenceView>)
    ensures
        under(p, a + b) == under(p, a) + under(p, b),
{
    assert(under(p, a + b) =~= under(p, a) + under(p, b));
}

/// Moving below `[k]`, then below `p`, is moving below `p` followed by `k`.
pub(crate) proof fn lemma_under_under(p: Seq<KeyView>, k: KeyView, ds: Seq<DifferenceView>)
    ensures
        under(p, under(seq![k], ds)) == under(p.push(k), ds),
{
    assert forall|i: int| 0 <= i < ds.len() implies #[trigger] under(p, under(seq![k], ds))[i]
        == under(p.push(k), ds)[i] by {
        assert(p + (seq![k] + ds[i].path) =~= p.push(k) + ds[i].path);
    }
    assert(under(p, under(seq![k], ds)) =~= under(p.push(k), ds));
}

/// A missing child moved below `p` sits at `p` followed by its key.
pub(crate) proof fn lemma_under_missing(p: Seq<KeyView>, k: KeyView, kind: KindView)
    ensures
        under(p, missing(k, kind)) == seq![DifferenceView { path: p.push(k), kind }],
{
    assert(p + seq![k] =~= p.push(k));
    assert(under(p, missing(k, kind)) =~= seq![DifferenceView { path: p.push(k), kind }]);
}

/// A disagreement of whole values moved below `p` sits at `p`.
pub(crate) proof fn lemma_under_here(p: Seq<KeyView>, l: ValueView, r: ValueView)
    ensures
        under(p, here(l, r)) == seq![DifferenceView { path: p, kind: KindView::NotEqual(l, r) }],
{
    assert(p + Seq::<KeyView>::empty() =~= p);
    assert(under(p, here(l, r)) =~= seq![
        DifferenceView { path: p, kind: KindView::NotEqual(l, r) },
    ]);
}

/// Moving below the root changes nothing.
pub(crate) proof fn lemma_under_root(ds: Seq<DifferenceView>)
    ensures
        under(Seq::empty(), ds) == ds,
{
    assert forall|i: int| 0 <= i < ds.len() implies #[trigger] under(Seq::empty(), ds)[i]
        == ds[i] by {
        assert(Seq::<KeyView>::empty() + ds[i].path =~= ds[i].path);
    }
    assert(under(Seq::empty(), ds) =~= ds);
}

/// Appends one difference to the list.
fn push_difference(acc: &mut Vec<Difference>, d: Difference)
    ensures
        differences_view(final(acc)@) == differences_view(old(acc)@).push(d@),
{
    acc.push(d);
    assert(differences_view(final(acc)@) =~= differences_view(old(acc)@).push(d@));
}

/// Records that the two whole values disagree at `path`.
fn push_not_equal(lhs: &Value, rhs: &Value, path: &Path, acc: &mut Vec<Difference>)
    ensures
        differences_view(final(acc)@) == differences_view(old(acc)@) + under(
            path@,
            here(lhs@, rhs@),
        ),
{
    let d = Difference {
        path: path.copy(),
        kind: DifferenceKind::NotEqual(copy_value(lhs), copy_value(rhs)),
    };
    push_difference(acc, d);
    proof {
        lemma_under_here(path@, lhs@, rhs@);
        assert(differences_view(final(acc)@) =~= differences_view(old(acc)@) + under(
            path@,
            here(lhs@, rhs@),
        ));
    }
}

/// No differences stay none below any path.
pub(crate) proof fn lemma_under_empty(p: Seq<KeyView>)
    ensures
        under(p, Seq::empty()) == Seq::<DifferenceView>::empty(),
{
    assert(under(p, Seq::empty()) =~= Seq::<DifferenceView>::empty());
}

/// The first member with the key, if any.
fn find_member(members: &Vec<(String, Value)>, key: &String) -> (r: Option<usize>)
    ensures
        r matches Some(i) ==> key_position(members_view(members@), key@) == Some(i as int),
        r is None ==> key_position(members_view(members@), key@) is None,
{
    proof {
        lemma_members_view(members@);
    }
    let ghost mv = members_view(members@);
    let mut i: usize = 0;
    while i < members.len()
        invariant
            i <= members@.len(),
            mv == members_view(members@),
            mv.len() == members@.len(),
            forall|k: int|
                0 <= k < members@.len() ==> #[trigger] mv[k] == (
                    members@[k].0@,
                    value_view(members@[k].1),
                ),
            forall|j: int| 0 <= j < i ==> mv[j].0 != key@,
        decreases members.len() - i,
    {
        if members[i].0 == *key {
            proof {
                assert(is_first_key(mv, key@, i as int));
                let c = choose|c: int| is_first_key(mv, key@, c);
                assert(c == i) by {
                    if c < i {
                        assert(mv[c].0 != key@);
                    } else if c > i {
                        assert(mv[i as int].0 != key@);
                    }
                }
            }
            return Some(i);
        }
        i = i + 1;
    }
    None
}

/// Positions of two arrays compared one by one, over the longer length.
fn compare_strict_items(
    ls: &Vec<Value>,
    rs: &Vec<Value>,
    config: Config,
    path: &Path,
    acc: &mut Vec<Difference>,
)
    ensures
        differences_view(final(acc)@) == differences_view(old(acc)@) + under(
            path@,
            strict_items(
                items_view(ls@),
                items_view(rs@),
                config,
                if ls@.len() >= rs@.len() {
                    ls@.len() as int
                } else {
                    rs@.len() as int
                },
            ),
        ),
    decreases ls,
{
    proof {
        lemma_items_view(ls@);
        lemma_items_view(rs@);
    }
    let ghost lv = items_view(ls@);
    let ghost rv = items_view(rs@);
    let ghost start = differences_view(acc@);
    let n: usize = if ls.len() >= rs.len() {
        ls.len()
    } else {
        rs.len()
    };
    let mut i: usize = 0;
    while i < n
        invariant
            i <= n,
            n == ls@.len() || n == rs@.len(),
            ls@.len() <= n && rs@.len() <= n,
            lv == items_view(ls@),
            rv == items_view(rs@),
            lv.len() == ls@.len(),
            rv.len() == rs@.len(),
            forall|k: int| 0 <= k < ls@.len() ==> #[trigger] lv[k] == value_view(ls@[k]),
            forall|k: int| 0 <= k < rs@.len() ==> #[trigger] rv[k] == value_view(rs@[k]),
            differences_view(acc@) == start + under(path@, strict_items(lv, rv, config, i as int)),
        decreases n - i,
    {
        let p = path.append(Key::Idx(i));
        let ghost slot = if i < ls@.len() && i < rs@.len() {
            under(seq![KeyView::Idx(i as nat)], compare_spec(lv[i as int], rv[i as int], config))
        } else if i < ls@.len() {
            missing(KeyView::Idx(i as nat), KindView::MissingFromRight)
        } else {
            missing(KeyView::Idx(i as nat), KindView::MissingFromLeft)
        };
        if i < ls.len() && i < rs.len() {
            compare_into(&ls[i], &rs[i], config, &p, acc);
            proof {
                lemma_under_under(path@, KeyView::Idx(i as nat), compare_spec(lv[i as int], rv[i as int], config));
            }
        } else if i < ls.len() {
            push_difference(acc, Difference { path: p, kind: DifferenceKind::MissingFromRight });
            proof {
                lemma_under_missing(path@, KeyView::Idx(i as nat), KindView::MissingFromRight);
            }
        } else {
            push_difference(acc, Difference { path: p, kind: DifferenceKind::MissingFromLeft });
            proof {
                lemma_under_missing(path@, KeyView::Idx(i as nat), KindView::MissingFromLeft);
            }
        }
        proof {
            lemma_under_concat(path@, strict_items(lv, rv, config, i as int), slot);
            assert(strict_items(lv, rv, config, i + 1) == strict_items(lv, rv, config, i as int) + slot);
        }
        i = i + 1;
    }
}

/// Positions of the right array looked up in the left one.
fn compare_inclusive_items(
    ls: &Vec<Value>,
    rs: &Vec<Value>,
    config: Config,
    path: &Path,
    acc: &mut Vec<Difference>,
)
    ensures
        differences_view(final(acc)@) == differences_view(old(acc)@) + under(
            path@,
            inclusive_items(items_view(ls@), items_view(rs@), config, rs@.len() as int),
        ),
    decreases ls,
{
    proof {
        lemma_items_view(ls@);
        lemma_items_view(rs@);
    }
    let ghost lv = items_view(ls@);
    let ghost rv = items_view(rs@);
    let ghost start = differences_view(acc@);
    let mut i: usize = 0;
    while i < rs.len()
        invariant
            i <= rs@.len(),
            lv == items_view(ls@),
            rv == items_view(rs@),
            lv.len() == ls@.len(),
            rv.len() == rs@.len(),
            forall|k: int| 0 <= k < ls@.len() ==> #[trigger] lv[k] == value_view(ls@[k]),
            forall|k: int| 0 <= k < rs@.len() ==> #[trigger] rv[k] == value_view(rs@[k]),
            differences_view(acc@) == start + under(path@, inclusive_items(lv, rv, config, i as int)),
        decreases rs.len() - i,
    {
        let p = path.append(Key::Idx(i));
        let ghost slot = if i < ls@.len() {
            under(seq![KeyView::Idx(i as nat)], compare_spec(lv[i as int], rv[i as int], config))
        } else {
            missing(KeyView::Idx(i as nat), KindView::MissingFromLeft)
        };
        if i < ls.len() {
            compare_into(&ls[i], &rs[i], config, &p, acc);
            proof {
                lemma_under_under(path@, KeyView::Idx(i as nat), compare_spec(lv[i as int], rv[i as int], config));
            }
        } else {
            push_difference(acc, Difference { path: p, kind: DifferenceKind::MissingFromLeft });
            proof {
                lemma_under_missing(path@, KeyView::Idx(i as nat), KindView::MissingFromLeft);
            }
        }
        proof {
            lemma_under_concat(path@, inclusive_items(lv, rv, config, i as int), slot);
            assert(inclusive_items(lv, rv, config, i + 1) == inclusive_items(lv, rv, config, i as int) + slot);
        }
        i = i + 1;
    }
}

/// For each contained element `i` and container element `j`, whether the
/// two show no difference.
fn compatibility(ls: &Vec<Value>, rs: &Vec<Value>, config: Config) -> (m: Vec<Vec<bool>>)
    ensures
        m@.map_values(|row: Vec<bool>| row@) == compat_matrix(
            items_view(ls@),
            items_view(rs@),
            config,
            rs@.len() as int,
        ),
        forall|i: int| 0 <= i < m@.len() ==> #[trigger] m@[i]@.len() == ls@.len(),
    decreases ls,
{
    proof {
        lemma_items_view(ls@);
        lemma_items_view(rs@);
    }
    let ghost lv = items_view(ls@);
    let ghost rv = items_view(rs@);
    let mut m: Vec<Vec<bool>> = Vec::new();
    let mut i: usize = 0;
    while i < rs.len()
        invariant
            i <= rs@.len(),
            lv == items_view(ls@),
            rv == items_view(rs@),
            lv.len() == ls@.len(),
            rv.len() == rs@.len(),
            forall|k: int| 0 <= k < ls@.len() ==> #[trigger] lv[k] == value_view(ls@[k]),
            forall|k: int| 0 <= k < rs@.len() ==> #[trigger] rv[k] == value_view(rs@[k]),
            forall|a: int| 0 <= a < m@.len() ==> #[trigger] m@[a]@.len() == ls@.len(),
            m@.map_values(|row: Vec<bool>| row@) == compat_matrix(lv, rv, config, i as int),
        decreases rs.len() - i,
    {
        let mut row: Vec<bool> = Vec::new();
        let mut j: usize = 0;
        while j < ls.len()
            invariant
                i < rs@.len(),
                j <= ls@.len(),
                lv == items_view(ls@),
                rv == items_view(rs@),
                lv.len() == ls@.len(),
                rv.len() == rs@.len(),
                forall|k: int| 0 <= k < ls@.len() ==> #[trigger] lv[k] == value_view(ls@[k]),
                forall|k: int| 0 <= k < rs@.len() ==> #[trigger] rv[k] == value_view(rs@[k]),
                row@.len() == j,
                row@ == compat_row(lv, rv[i as int], config, j as int),
            decreases ls.len() - j,
        {
            let mut found: Vec<Difference> = Vec::new();
            compare_into(&ls[j], &rs[i], config, &Path::root(), &mut found);
            proof {
                assert(differences_view(found@).len() == found@.len());
                assert(differences_view(Seq::<Difference>::empty()) =~= Seq::<DifferenceView>::empty());
            }
            row.push(found.len() == 0);
            j = j + 1;
        }
        let ghost before = m@.map_values(|row: Vec<bool>| row@);
        m.push(row);
        proof {
            assert(m@.map_values(|row: Vec<bool>| row@) =~= before.push(
                compat_row(lv, rv[i as int], config, lv.len() as int),
            ));
        }
        i = i + 1;
    }
    m
}

/// Members of the left object against the right one.
fn compare_left_members(
    lm: &Vec<(String, Value)>,
    rm: &Vec<(String, Value)>,
    config: Config,
    path: &Path,
    acc: &mut Vec<Difference>,
)
    ensures
        differences_view(final(acc)@) == differences_view(old(acc)@) + under(
            path@,
            left_members(members_view(lm@), members_view(rm@), config, lm@.len() as int),
        ),
    decreases lm,
{
    proof {
        lemma_members_view(lm@);
        lemma_members_view(rm@);
    }
    let ghost lv = members_view(lm@);
    let ghost rv = members_view(rm@);
    let ghost start = differences_view(acc@);
    let mut k: usize = 0;
    while k < lm.len()
        invariant
            k <= lm@.len(),
            lv == members_view(lm@),
            rv == members_view(rm@),
            lv.len() == lm@.len(),
            rv.len() == rm@.len(),
            forall|a: int| 0 <= a < lm@.len() ==> #[trigger] lv[a] == (lm@[a].0@, value_view(lm@[a].1)),
            forall|a: int| 0 <= a < rm@.len() ==> #[trigger] rv[a] == (rm@[a].0@, value_view(rm@[a].1)),
            differences_view(acc@) == start + under(path@, left_members(lv, rv, config, k as int)),
        decreases lm.len() - k,
    {
        let key = &lm[k].0;
        let ghost slot = match key_position(rv, key@) {
            Some(j) => under(seq![KeyView::Field(key@)], compare_spec(lv[k as int].1, rv[j].1, config)),
            None => missing(KeyView::Field(key@), KindView::MissingFromRight),
        };
        let p = path.append(Key::Field(key.clone()));
        match find_member(rm, key) {
            Some(j) => {
                proof {
                    assert(decreases_to!(*lm => lm@[k as int]));
                }
                compare_into(&lm[k].1, &rm[j].1, config, &p, acc);
                proof {
                    lemma_under_under(path@, KeyView::Field(key@), compare_spec(lv[k as int].1, rv[j as int].1, config));
                }
            },
            None => {
                push_difference(acc, Difference { path: p, kind: DifferenceKind::MissingFromRight });
                proof {
                    lemma_under_missing(path@, KeyView::Field(key@), KindView::MissingFromRight);
                }
            },
        }
        proof {
            lemma_under_concat(path@, left_members(lv, rv, config, k as int), slot);
            assert(left_members(lv, rv, config, k + 1) == left_members(lv, rv, config, k as int) + slot);
        }
        k = k + 1;
    }
}

/// Members of the right object whose keys the left one lacks.
fn compare_right_only_members(
    lm: &Vec<(String, Value)>,
    rm: &Vec<(String, Value)>,
    path: &Path,
    acc: &mut Vec<Difference>,
)
    ensures
        differences_view(final(acc)@) == differences_view(old(acc)@) + under(
            path@,
            right_only_members(members_view(lm@), members_view(rm@), rm@.len() as int),
        ),
{
    proof {
        lemma_members_view(lm@);
        lemma_members_view(rm@);
    }
    let ghost lv = members_view(lm@);
    let ghost rv = members_view(rm@);
    let ghost start = differences_view(acc@);
    let mut j: usize = 0;
    while j < rm.len()
        invariant
            j <= rm@.len(),
            lv == members_view(lm@),
            rv == members_view(rm@),
            lv.len() == lm@.len(),
            rv.len() == rm@.len(),
            forall|a: int| 0 <= a < rm@.len() ==> #[trigger] rv[a] == (rm@[a].0@, value_view(rm@[a].1)),
            differences_view(acc@) == start + under(path@, right_only_members(lv, rv, j as int)),
        decreases rm.len() - j,
    {
        let key = &rm[j].0;
        let ghost slot = if key_position(lv, key@) is None {
            missing(KeyView::Field(key@), KindView::MissingFromLeft)
        } else {
            Seq::empty()
        };
        match find_member(lm, key) {
            Some(_) => {
                proof {
                    lemma_under_empty(path@);
                }
            },
            None => {
                let p = path.append(Key::Field(key.clone()));
                push_difference(acc, Difference { path: p, kind: DifferenceKind::MissingFromLeft });
                proof {
                    lemma_under_missing(path@, KeyView::Field(key@), KindView::MissingFromLeft);
                }
            },
        }
        proof {
            lemma_under_concat(path@, right_only_members(lv, rv, j as int), slot);
            assert(right_only_members(lv, rv, j + 1) == right_only_members(lv, rv, j as int) + slot);
        }
        j = j + 1;
    }
}

/// Members of the right object looked up in the left one.
fn compare_inclusive_members(
    lm: &Vec<(String, Value)>,
    rm: &Vec<(String, Value)>,
    config: Config,
    path: &Path,
    acc: &mut Vec<Difference>,
)
    ensures
        differences_view(final(acc)@) == differences_view(old(acc)@) + under(
            path@,
            inclusive_members(members_view(lm@), members_view(rm@), config, rm@.len() as int),
        ),
    decreases lm,
{
    proof {
        lemma_members_view(lm@);
        lemma_members_view(rm@);
    }
    let ghost lv = members_view(lm@);
    let ghost rv = members_view(rm@);
    let ghost start = differences_view(acc@);
    let mut j: usize = 0;
    while j < rm.len()
        invariant
            j <= rm@.len(),
            lv == members_view(lm@),
            rv == members_view(rm@),
            lv.len() == lm@.len(),
            rv.len() == rm@.len(),
            forall|a: int| 0 <= a < lm@.len() ==> #[trigger] lv[a] == (lm@[a].0@, value_view(lm@[a].1)),
            forall|a: int| 0 <= a < rm@.len() ==> #[trigger] rv[a] == (rm@[a].0@, value_view(rm@[a].1)),
            differences_view(acc@) == start + under(path@, inclusive_members(lv, rv, config, j as int)),
        decreases rm.len() - j,
    {
        let key = &rm[j].0;
        let ghost slot = match key_position(lv, key@) {
            Some(k) => under(seq![KeyView::Field(key@)], compare_spec(lv[k].1, rv[j as int].1, config)),
            None => missing(KeyView::Field(key@), KindView::MissingFromLeft),
        };
        let p = path.append(Key::Field(key.clone()));
        match find_member(lm, key) {
            Some(k) => {
                proof {
                    assert(decreases_to!(*lm => lm@[k as int]));
                }
                compare_into(&lm[k].1, &rm[j].1, config, &p, acc);
                proof {
                    lemma_under_under(path@, KeyView::Field(key@), compare_spec(lv[k as int].1, rv[j as int].1, config));
                }
            },
            None => {
                push_difference(acc, Difference { path: p, kind: DifferenceKind::MissingFromLeft });
                proof {
                    lemma_under_missing(path@, KeyView::Field(key@), KindView::MissingFromLeft);
                }
            },
        }
        proof {
            lemma_under_concat(path@, inclusive_members(lv, rv, config, j as int), slot);
            assert(inclusive_members(lv, rv, config, j + 1) == inclusive_members(lv, rv, config, j as int) + slot);
        }
        j = j + 1;
    }
}

/// Appends the differences between `lhs` and `rhs`, found below `path`.
fn compare_into(lhs: &Value, rhs: &Value, config: Config, path: &Path, acc: &mut Vec<Difference>)
    ensures
        differences_view(final(acc)@) == differences_view(old(acc)@) + under(
            path@,
            compare_spec(lhs@, rhs@, config),
        ),
    decreases lhs,
{
    proof {
        lemma_under_empty(path@);
    }
    match (lhs, rhs) {
        (Value::Null, Value::Null) => {
            assert(differences_view(acc@) =~= differences_view(acc@) + Seq::<DifferenceView>::empty());
        },
        (Value::Bool(a), Value::Bool(b)) => {
            if *a != *b {
                push_not_equal(lhs, rhs, path, acc);
            } else {
                assert(differences_view(acc@) =~= differences_view(acc@) + Seq::<DifferenceView>::empty());
            }
        },
        (Value::Number(a), Value::Number(b)) => {
            if !numbers_equal(*a, *b, config.numeric_mode) {
                push_not_equal(lhs, rhs, path, acc);
            } else {
                assert(differences_view(acc@) =~= differences_view(acc@) + Seq::<DifferenceView>::empty());
            }
        },
        (Value::String(a), Value::String(b)) => {
            if !(*a == *b) {
                push_not_equal(lhs, rhs, path, acc);
            } else {
                assert(differences_view(acc@) =~= differences_view(acc@) + Seq::<DifferenceView>::empty());
            }
        },
        (Value::Array(ls), Value::Array(rs)) => {
            proof {
                lemma_items_view(ls@);
                lemma_items_view(rs@);
            }
            match config.compare_mode {
                CompareMode::Strict => compare_strict_items(ls, rs, config, path, acc),
                CompareMode::Inclusive => compare_inclusive_items(ls, rs, config, path, acc),
                CompareMode::Contains => {
                    if rs.len() > ls.len() {
                        push_not_equal(lhs, rhs, path, acc);
                    } else {
                        let m = compatibility(ls, rs, config);
                        let ok = assign_rows(&m, ls.len());
                        if !ok {
                            push_not_equal(lhs, rhs, path, acc);
                        } else {
                            assert(differences_view(acc@) =~= differences_view(acc@) + Seq::<DifferenceView>::empty());
                        }
                    }
                },
            }
        },
        (Value::Object(lm), Value::Object(rm)) => {
            proof {
                lemma_members_view(lm@);
                lemma_members_view(rm@);
            }
            match config.compare_mode {
                CompareMode::Strict => {
                    compare_left_members(lm, rm, config, path, acc);
                    compare_right_only_members(lm, rm, path, acc);
                    proof {
                        lemma_under_concat(
                            path@,
                            left_members(members_view(lm@), members_view(rm@), config, lm@.len() as int),
                            right_only_members(members_view(lm@), members_view(rm@), rm@.len() as int),
                        );
                    }
                },
                _ => compare_inclusive_members(lm, rm, config, path, acc),
            }
        },
        _ => push_not_equal(lhs, rhs, path, acc),
    }
}

/// The differences between two trees under the given settings, in the
/// order they are found: depth first, positions and members in order.
pub fn compare(lhs: &Value, rhs: &Value, config: Config) -> (r: Vec<Difference>)
    ensures
        differences_view(r@) == compare_spec(lhs@, rhs@, config),
{
    let mut acc: Vec<Difference> = Vec::new();
    compare_into(lhs, rhs, config, &Path::root(), &mut acc);
    proof {
        lemma_under_root(compare_spec(lhs@, rhs@, config));
        assert(differences_view(Seq::<Difference>::empty()) =~= Seq::<DifferenceView>::empty());
        assert(differences_view(acc@) =~= compare_spec(lhs@, rhs@, config));
    }
    acc
}

/// Whether `container` contains `contained`: arrays match as multisets,
/// objects inclusively, numbers strictly.
pub fn contains(container: &Value, contained: &Value) -> (r: bool)
    ensures
        r == (compare_spec(container@, contained@, Config::new_spec(CompareMode::Contains)).len()
            == 0),
{
    let found = compare(container, contained, Config::new(CompareMode::Contains));
    found.len() == 0
}

/// The differences between two trees under one of the two usual settings.
pub fn diff(lhs: &Value, rhs: &Value, mode: Mode) -> (r: Vec<Difference>)
    ensures
        differences_view(r@) == compare_spec(lhs@, rhs@, mode_config(mode)),
{
    compare(lhs, rhs, mode.config())
}

} // verus!
