//! The values of a column to choose from.

use crate::collections::{Counts, StringSet};
use crate::filter;
use crate::filter::lowercase;
use crate::model;
use crate::model::{level_masks, LevelMask, Model};
use crate::order;
use crate::order::comes_before;
use crate::split;
use crate::text;
use crate::text::{chars_contain, chars_of};
use vstd::prelude::*;
use vstd::utf8::*;

verus! {

/// The columns whose values can be chosen.
#[derive(Debug, Clone, Copy, PartialEq, Eq, Structural)]
pub enum PickerCol {
    Level,
    Pid,
    Tid,
    Tag,
}

/// A value of a column and how often it occurs.
#[derive(Debug)]
pub struct PickerOption {
    pub value: String,
    pub count: usize,
}

/// A value of a column and how often it occurs.
#[verifier::ext_equal]
pub struct OptionView {
    pub value: Seq<char>,
    pub count: nat,
}

impl View for PickerOption {
    type V = OptionView;

    open spec fn view(&self) -> OptionView {
        OptionView { value: self.value@, count: self.count as nat }
    }
}

/// The options.
pub open spec fn option_views(v: Seq<PickerOption>) -> Seq<OptionView> {
    v.map_values(|o: PickerOption| o@)
}

/// The values of the options.
pub open spec fn option_values(v: Seq<OptionView>) -> Seq<Seq<char>> {
    v.map_values(|o: OptionView| o.value)
}

/// The letter of the level at a position.
pub open spec fn level_letter(i: int) -> char {
    model::level_mask_at(i).as_char()
}

/// More frequent values come first, equally frequent ones in the order of their
/// texts.
pub open spec fn option_before(a: OptionView, b: OptionView) -> bool {
    a.count > b.count || (a.count == b.count && order::text_before(a.value, b.value))
}

/// The options are those of the counts, each once, in order.
pub open spec fn sorted_options(v: Seq<OptionView>, counts: Map<Seq<char>, nat>) -> bool {
    &&& forall|i: int, j: int| 0 <= i < j < v.len() ==> option_before(v[i], v[j])
    &&& forall|i: int|
        0 <= i < v.len() ==> counts.contains_key((#[trigger] v[i]).value) && counts[v[i].value]
            == v[i].count
    &&& forall|k: Seq<char>| #[trigger]
        counts.contains_key(k) ==> exists|i: int| 0 <= i < v.len() && (#[trigger] v[i]).value == k
}

/// The levels that occur among the first `n`, from verbose to fatal.
pub open spec fn level_options(counts: Seq<usize>, n: int) -> Seq<OptionView>
    decreases n,
{
    if n <= 0 {
        seq![]
    } else {
        let before = level_options(counts, n - 1);
        if counts[n - 1] > 0 {
            before.push(
                OptionView { value: seq![level_letter(n - 1)], count: counts[n - 1] as nat },
            )
        } else {
            before
        }
    }
}

/// The options of a column.
pub open spec fn options_of(model: Model, col: PickerCol, v: Seq<OptionView>) -> bool {
    match col {
        PickerCol::Pid => sorted_options(v, model.pid_counts@),
        PickerCol::Tid => sorted_options(v, model.tid_counts@),
        PickerCol::Tag => sorted_options(v, model.tag_counts@),
        PickerCol::Level => v == level_options(model.level_counts@, 6),
    }
}

/// The order of options is transitive.
proof fn lemma_option_transitive(a: OptionView, b: OptionView, c: OptionView)
    requires
        option_before(a, b),
        option_before(b, c),
    ensures
        option_before(a, c),
{
    if a.count == b.count && b.count == c.count {
        order::text_order_transitive(a.value, b.value, c.value);
    }
}

/// Of two options with different values one comes before the other.
proof fn lemma_option_total(a: OptionView, b: OptionView)
    requires
        a.value != b.value,
    ensures
        option_before(a, b) || option_before(b, a),
        option_before(a, b) ==> !option_before(b, a),
{
    order::text_order_total(a.value, b.value);
}

/// There is one way to order the options of a column.
pub proof fn options_unique(
    one: Seq<OptionView>,
    other: Seq<OptionView>,
    counts: Map<Seq<char>, nat>,
)
    requires
        sorted_options(one, counts),
        sorted_options(other, counts),
    ensures
        one == other,
    decreases one.len(),
{
    if one.len() == 0 {
        if other.len() > 0 {
            assert(counts.contains_key(other[0].value));
        }
        assert(one =~= other);
    } else {
        let k = one[0].value;
        assert(counts.contains_key(k));
        let j = choose|j: int| 0 <= j < other.len() && (#[trigger] other[j]).value == k;
        assert(other[j] == one[0]);
        if j > 0 {
            let x = other[0];
            assert(option_before(other[0], other[j]));
            assert(counts.contains_key(x.value));
            let i = choose|i: int| 0 <= i < one.len() && (#[trigger] one[i]).value == x.value;
            assert(one[i] == x);
            if i > 0 {
                assert(option_before(one[0], one[i]));
                order::text_order_total(one[0].value, x.value);
            }
            order::text_order_total(one[0].value, other[0].value);
            assert(false);
        }
        let a = one.drop_first();
        let b = other.drop_first();
        let rest = counts.remove(k);
        lemma_options_rest(one, counts);
        lemma_options_rest(other, counts);
        options_unique(a, b, rest);
        assert(one =~= seq![one[0]] + a);
        assert(other =~= seq![other[0]] + b);
    }
}

/// Without the first option the others are those of the other values.
proof fn lemma_options_rest(v: Seq<OptionView>, counts: Map<Seq<char>, nat>)
    requires
        v.len() > 0,
        sorted_options(v, counts),
    ensures
        sorted_options(v.drop_first(), counts.remove(v[0].value)),
{
    let k = v[0].value;
    let rest = v.drop_first();
    let less = counts.remove(k);
    assert forall|i: int, j: int| 0 <= i < j < rest.len() implies option_before(
        rest[i],
        rest[j],
    ) by {
        assert(option_before(v[i + 1], v[j + 1]));
    }
    assert forall|i: int| 0 <= i < rest.len() implies less.contains_key((#[trigger] rest[i]).value)
        && less[rest[i].value] == rest[i].count by {
        assert(counts.contains_key(v[i + 1].value));
        assert(option_before(v[0], v[i + 1]));
        order::text_order_total(v[0].value, v[i + 1].value);
        if v[i + 1].value == k {
            assert(v[0].count == counts[k]);
            assert(v[i + 1].count == counts[k]);
        }
    }
    assert forall|x: Seq<char>| #[trigger] less.contains_key(x) implies exists|i: int|
        0 <= i < rest.len() && (#[trigger] rest[i]).value == x by {
        assert(counts.contains_key(x));
        let i = choose|i: int| 0 <= i < v.len() && (#[trigger] v[i]).value == x;
        assert(i > 0);
        assert(rest[i - 1].value == x);
    }
}

/// A value with its count and its characters, for sorting.
struct SortItem {
    option: PickerOption,
    chars: Vec<char>,
}

impl SortItem {
    spec fn ok(&self) -> bool {
        self.chars@ == self.option.value@
    }
}

/// Whether an item comes before another.
fn item_before(a: &SortItem, b: &SortItem) -> (r: bool)
    requires
        a.ok(),
        b.ok(),
    ensures
        r == option_before(a.option@, b.option@),
{
    if a.option.count != b.option.count {
        a.option.count > b.option.count
    } else {
        comes_before(a.chars.as_slice(), b.chars.as_slice())
    }
}

/// A position is in the list.
spec fn lists(v: Seq<usize>, p: int) -> bool {
    exists|i: int| 0 <= i < v.len() && #[trigger] v[i] == p
}

/// The list holds the positions `from..to`.
spec fn is_arrangement(v: Seq<usize>, from: int, to: int) -> bool {
    &&& forall|i: int| 0 <= i < v.len() ==> from <= (#[trigger] v[i]) < to
    &&& forall|p: int| from <= p < to ==> #[trigger] lists(v, p)
}

/// The items at the positions are in order.
spec fn arranged(items: Seq<SortItem>, v: Seq<usize>) -> bool {
    forall|i: int, j: int|
        0 <= i < j < v.len() ==> option_before(
            items[(#[trigger] v[i]) as int].option@,
            items[(#[trigger] v[j]) as int].option@,
        )
}

/// The items are well formed and have different values.
spec fn items_ok(items: Seq<SortItem>) -> bool {
    &&& forall|i: int| 0 <= i < items.len() ==> (#[trigger] items[i]).ok()
    &&& forall|i: int, j: int|
        0 <= i < j < items.len() ==> (#[trigger] items[i]).option.value@
            != (#[trigger] items[j]).option.value@
}

/// Merges two ordered lists of positions.
fn merge_positions(
    items: &Vec<SortItem>,
    a: &Vec<usize>,
    b: &Vec<usize>,
    from: usize,
    mid: usize,
    to: usize,
) -> (r: Vec<usize>)
    requires
        items_ok(items@),
        from <= mid <= to <= items@.len(),
        is_arrangement(a@, from as int, mid as int),
        is_arrangement(b@, mid as int, to as int),
        arranged(items@, a@),
        arranged(items@, b@),
    ensures
        is_arrangement(r@, from as int, to as int),
        arranged(items@, r@),
{
    let mut out: Vec<usize> = Vec::new();
    let mut i: usize = 0;
    let mut j: usize = 0;
    let n: usize = a.len();
    let m: usize = b.len();
    while i < n || j < m
        invariant
            n == a@.len(),
            m == b@.len(),
            i <= n,
            j <= m,
            items_ok(items@),
            from <= mid <= to <= items@.len(),
            is_arrangement(a@, from as int, mid as int),
            is_arrangement(b@, mid as int, to as int),
            arranged(items@, a@),
            arranged(items@, b@),
            arranged(items@, out@),
            forall|k: int| 0 <= k < out@.len() ==> from <= (#[trigger] out@[k]) < to,
            forall|k: int| 0 <= k < i ==> #[trigger] out@.contains(a@[k]),
            forall|k: int| 0 <= k < j ==> #[trigger] out@.contains(b@[k]),
            forall|k: int, l: int|
                0 <= k < out@.len() && i <= l < n ==> option_before(
                    items@[(#[trigger] out@[k]) as int].option@,
                    items@[(#[trigger] a@[l]) as int].option@,
                ),
            forall|k: int, l: int|
                0 <= k < out@.len() && j <= l < m ==> option_before(
                    items@[(#[trigger] out@[k]) as int].option@,
                    items@[(#[trigger] b@[l]) as int].option@,
                ),
        decreases n - i + m - j,
    {
        let ghost before = out@;
        let take_a = if i < n {
            if j < m {
                assert(from <= a@[i as int] < mid);
                assert(mid <= b@[j as int] < to);
                assert(items@[a@[i as int] as int].ok());
                assert(items@[b@[j as int] as int].ok());
                item_before(&items[a[i]], &items[b[j]])
            } else {
                true
            }
        } else {
            false
        };
        proof {
            if i < n && j < m {
                assert(from <= a@[i as int] < mid);
                assert(mid <= b@[j as int] < to);
                lemma_option_total(
                    items@[a@[i as int] as int].option@,
                    items@[b@[j as int] as int].option@,
                );
            }
        }
        if take_a {
            assert(from <= a@[i as int] < mid);
            out.push(a[i]);
            proof {
                assert forall|l: int| j <= l < m implies option_before(
                    items@[a@[i as int] as int].option@,
                    items@[(#[trigger] b@[l]) as int].option@,
                ) by {
                    if l > j {
                        assert(option_before(
                            items@[b@[j as int] as int].option@,
                            items@[b@[l] as int].option@,
                        ));
                        lemma_option_transitive(
                            items@[a@[i as int] as int].option@,
                            items@[b@[j as int] as int].option@,
                            items@[b@[l] as int].option@,
                        );
                    }
                }
                lemma_contains_push(before, a@[i as int]);
                assert forall|k: int| 0 <= k < i + 1 implies #[trigger] out@.contains(a@[k]) by {
                    assert(k < i ==> before.contains(a@[k]));
                }
                assert forall|k: int| 0 <= k < j implies #[trigger] out@.contains(b@[k]) by {
                    assert(k < j ==> before.contains(b@[k]));
                }
            }
            i = i + 1;
        } else {
            assert(mid <= b@[j as int] < to);
            out.push(b[j]);
            proof {
                assert forall|l: int| i <= l < n implies option_before(
                    items@[b@[j as int] as int].option@,
                    items@[(#[trigger] a@[l]) as int].option@,
                ) by {
                    if l > i {
                        assert(option_before(
                            items@[a@[i as int] as int].option@,
                            items@[a@[l] as int].option@,
                        ));
                        lemma_option_transitive(
                            items@[b@[j as int] as int].option@,
                            items@[a@[i as int] as int].option@,
                            items@[a@[l] as int].option@,
                        );
                    }
                }
                lemma_contains_push(before, b@[j as int]);
                assert forall|k: int| 0 <= k < i implies #[trigger] out@.contains(a@[k]) by {
                    assert(k < i ==> before.contains(a@[k]));
                }
                assert forall|k: int| 0 <= k < j + 1 implies #[trigger] out@.contains(b@[k]) by {
                    assert(k < j ==> before.contains(b@[k]));
                }
            }
            j = j + 1;
        }
    }
    proof {
        assert forall|p: int| from <= p < to implies #[trigger] lists(out@, p) by {
            if p < mid {
                assert(lists(a@, p));
                let k = choose|k: int| 0 <= k < a@.len() && #[trigger] a@[k] == p;
                assert(out@.contains(a@[k]));
            } else {
                assert(lists(b@, p));
                let k = choose|k: int| 0 <= k < b@.len() && #[trigger] b@[k] == p;
                assert(out@.contains(b@[k]));
            }
        }
    }
    out
}

/// A list with one item more holds it, and what it held before.
proof fn lemma_contains_push(s: Seq<usize>, x: usize)
    ensures
        s.push(x).contains(x),
        forall|y: usize| s.contains(y) ==> s.push(x).contains(y),
{
    assert(s.push(x)[s.len() as int] == x);
    assert forall|y: usize| s.contains(y) implies s.push(x).contains(y) by {
        let i = choose|i: int| 0 <= i < s.len() && s[i] == y;
        assert(s.push(x)[i] == y);
    }
}

/// The positions of some items in the order of the items.
fn arrange(items: &Vec<SortItem>, from: usize, to: usize) -> (r: Vec<usize>)
    requires
        items_ok(items@),
        from <= to <= items@.len(),
    ensures
        is_arrangement(r@, from as int, to as int),
        arranged(items@, r@),
    decreases to - from,
{
    if to - from == 0 {
        return Vec::new();
    }
    if to - from == 1 {
        let mut one: Vec<usize> = Vec::new();
        one.push(from);
        assert(one@[0] == from);
        return one;
    }
    let mid: usize = from + (to - from) / 2;
    let a = arrange(items, from, mid);
    let b = arrange(items, mid, to);
    merge_positions(items, &a, &b, from, mid, to)
}

/// The options of some counts, in order.
pub fn sort_counts(counts: &Counts) -> (r: Vec<PickerOption>)
    ensures
        sorted_options(option_views(r@), counts@),
{
    let keys = counts.keys();
    let ghost names = split::texts(keys@);
    let mut items: Vec<SortItem> = Vec::new();
    let n: usize = keys.len();
    for i in 0..n
        invariant
            n == keys@.len(),
            names == split::texts(keys@),
            forall|k: Seq<char>| #[trigger] counts@.contains_key(k) == names.contains(k),
            items@.len() == i,
            forall|j: int|
                0 <= j < i ==> (#[trigger] items@[j]).ok() && items@[j].option.value@ == names[j]
                    && counts@[names[j]] == items@[j].option.count,
    {
        let key = &keys[i];
        assert(names[i as int] == key@);
        assert(names.contains(names[i as int]));
        let count: usize = match counts.get(key.as_str()) {
            Some(c) => c,
            None => 0,
        };
        items.push(
            SortItem {
                option: PickerOption { value: key.clone(), count },
                chars: chars_of(key.as_str()),
            },
        );
    }
    assert(items_ok(items@)) by {
        assert forall|i: int, j: int| 0 <= i < j < items@.len() implies (
        #[trigger] items@[i]).option.value@ != (#[trigger] items@[j]).option.value@ by {
            assert(names[i] != names[j]);
        }
    }
    let order = arrange(&items, 0, n);
    let mut out: Vec<PickerOption> = Vec::new();
    let m: usize = order.len();
    for i in 0..m
        invariant
            m == order@.len(),
            n == items@.len(),
            is_arrangement(order@, 0, n as int),
            out@.len() == i,
            forall|j: int|
                0 <= j < i ==> (#[trigger] out@[j])@ == items@[order@[j] as int].option@,
    {
        assert(0 <= order@[i as int] < n);
        let item = &items[order[i]];
        out.push(PickerOption { value: item.option.value.clone(), count: item.option.count });
    }
    proof {
        let v = option_views(out@);
        assert forall|i: int, j: int| 0 <= i < j < v.len() implies option_before(v[i], v[j]) by {
            assert(out@[i]@ == items@[order@[i] as int].option@);
            assert(out@[j]@ == items@[order@[j] as int].option@);
        }
        assert forall|i: int| 0 <= i < v.len() implies counts@.contains_key((#[trigger] v[i]).value)
            && counts@[v[i].value] == v[i].count by {
            assert(out@[i]@ == items@[order@[i] as int].option@);
            assert(0 <= order@[i] < n);
            assert(items@[order@[i] as int].ok());
            assert(names.contains(names[order@[i] as int]));
        }
        assert forall|k: Seq<char>| #[trigger] counts@.contains_key(k) implies exists|i: int|
            0 <= i < v.len() && (#[trigger] v[i]).value == k by {
            assert(names.contains(k));
            let p = choose|p: int| 0 <= p < names.len() && names[p] == k;
            assert(lists(order@, p));
            let i = choose|i: int| 0 <= i < order@.len() && #[trigger] order@[i] == p;
            assert(out@[i]@ == items@[order@[i] as int].option@);
            assert(items@[p].ok());
            assert(v[i].value == k);
        }
    }
    out
}

/// The letter of the level at a position, as a string.
fn letter_text(i: usize) -> (r: String)
    requires
        i < 6,
    ensures
        r@ == seq![level_letter(i as int)],
{
    let masks = level_masks();
    let mut s = String::new();
    assert(masks@[i as int] == model::level_mask_at(i as int));
    s.push(masks[i].as_char());
    assert(s@ =~= seq![level_letter(i as int)]);
    s
}

/// The options of a column: the most frequent first, except for the levels, which
/// come from verbose to fatal.
pub fn build_sorted_options(model: &Model, col: PickerCol) -> (r: Vec<PickerOption>)
    ensures
        options_of(*model, col, option_views(r@)),
{
    match col {
        PickerCol::Pid => sort_counts(&model.pid_counts),
        PickerCol::Tid => sort_counts(&model.tid_counts),
        PickerCol::Tag => sort_counts(&model.tag_counts),
        PickerCol::Level => {
            let mut out: Vec<PickerOption> = Vec::new();
            assert(option_views(out@) =~= Seq::<OptionView>::empty());
            for i in 0..6usize
                invariant
                    option_views(out@) == level_options(model.level_counts@, i as int),
            {
                let ghost before = option_views(out@);
                let count: usize = model.level_counts[i];
                if count > 0 {
                    let option = PickerOption { value: letter_text(i), count };
                    out.push(option);
                    assert(option_views(out@) =~= before.push(option@));
                }
            }
            out
        },
    }
}

/// The values of the options as a set.
pub fn all_values(options: &Vec<PickerOption>) -> (r: StringSet)
    ensures
        r@ == option_values(option_views(options@)).to_set(),
{
    let mut values: Vec<String> = Vec::new();
    let n: usize = options.len();
    for i in 0..n
        invariant
            n == options@.len(),
            values@.len() == i,
            forall|j: int| 0 <= j < i ==> (#[trigger] values@[j])@ == options@[j].value@,
    {
        values.push(options[i].value.clone());
    }
    proof {
        let expected = option_values(option_views(options@));
        assert forall|j: int| 0 <= j < n implies split::texts(values@)[j] == expected[j] by {
            assert(values@[j]@ == options@[j].value@);
        }
        assert(split::texts(values@) =~= expected);
    }
    StringSet::from_texts(&values)
}

/// The letters of the levels in a mask.
pub open spec fn mask_letters(mask: LevelMask, n: int) -> Set<Seq<char>>
    decreases n,
{
    if n <= 0 {
        Set::empty()
    } else {
        let before = mask_letters(mask, n - 1);
        if mask.contains(model::level_mask_at(n - 1)) {
            before.insert(seq![level_letter(n - 1)])
        } else {
            before
        }
    }
}

/// The levels among the first `n` whose letters are in a set.
pub open spec fn letters_mask(letters: Set<Seq<char>>, n: int) -> LevelMask
    decreases n,
{
    if n <= 0 {
        LevelMask::empty()
    } else {
        let before = letters_mask(letters, n - 1);
        if letters.contains(seq![level_letter(n - 1)]) {
            before.union(model::level_mask_at(n - 1))
        } else {
            before
        }
    }
}

/// The letters of the levels in a mask.
pub fn letters_of(mask: LevelMask) -> (r: StringSet)
    ensures
        r@ == mask_letters(mask, 6),
{
    let masks = level_masks();
    let mut out = StringSet::new();
    for i in 0..6usize
        invariant
            forall|k: int| 0 <= k < 6 ==> #[trigger] masks@[k] == model::level_mask_at(k),
            out@ == mask_letters(mask, i as int),
    {
        assert(masks@[i as int] == model::level_mask_at(i as int));
        if mask.contains(masks[i]) {
            out.insert(letter_text(i));
        }
    }
    out
}

/// The levels whose letters are in a set.
pub fn mask_of(letters: &StringSet) -> (r: LevelMask)
    ensures
        r == letters_mask(letters@, 6),
{
    let masks = level_masks();
    let mut out = LevelMask::empty();
    for i in 0..6usize
        invariant
            forall|k: int| 0 <= k < 6 ==> #[trigger] masks@[k] == model::level_mask_at(k),
            out == letters_mask(letters@, i as int),
    {
        assert(masks@[i as int] == model::level_mask_at(i as int));
        if letters.contains(letter_text(i).as_str()) {
            out = out.union(masks[i]);
        }
    }
    out
}

/// Whether a value is shown under a search text.
pub open spec fn found_by(value: Seq<char>, search: Seq<char>) -> bool {
    let low = filter::lowercased(search);
    low.len() == 0 || text::has_substring(filter::lowercased(value), low)
}

/// Whether a value in lower case is shown under a search text in lower case.
pub fn shows_lowered(value: &str, search: &str) -> (r: bool)
    ensures
        r == (search@.len() == 0 || text::has_substring(value@, search@)),
{
    search.is_empty() || chars_contain(chars_of(value).as_slice(), chars_of(search).as_slice())
}

/// Whether a value is shown under a search text.
pub fn is_found(value: &str, search: &str) -> (r: bool)
    ensures
        r == found_by(value@, search@),
        is_ascii_chars(value@) && is_ascii_chars(search@) ==> (r <==> exists|at: int|
            0 <= at && at + search@.len() <= value@.len() && #[trigger] stands_in_any_case(
                value@,
                search@,
                at,
            )),
{
    let low = lowercase(search);
    if low.as_str().is_empty() {
        proof {
            if is_ascii_chars(search@) {
                assert(search@.len() == low@.len());
                assert(stands_in_any_case(value@, search@, 0));
            }
        }
        return true;
    }
    let low_value = lowercase(value);
    proof {
        if is_ascii_chars(value@) && is_ascii_chars(search@) {
            lemma_in_any_case(value@, search@);
        }
    }
    shows_lowered(low_value.as_str(), low.as_str())
}

/// Two characters are the same but for the case of a letter of ASCII.
pub open spec fn same_in_any_case(a: char, b: char) -> bool {
    ||| a == b
    ||| ('A' <= a <= 'Z' && b as u32 == a as u32 + 32)
    ||| ('A' <= b <= 'Z' && a as u32 == b as u32 + 32)
}

/// A text stands in another at `at`, but for the case of letters of ASCII.
pub open spec fn stands_in_any_case(hay: Seq<char>, needle: Seq<char>, at: int) -> bool {
    forall|j: int| 0 <= j < needle.len() ==> same_in_any_case(#[trigger] hay[at + j], needle[j])
}

/// In lower case a text stands in another exactly where it does but for the case.
proof fn lemma_in_any_case(value: Seq<char>, search: Seq<char>)
    ensures
        text::has_substring(filter::ascii_lowered(value), filter::ascii_lowered(search))
            <==> exists|at: int|
            0 <= at && at + search.len() <= value.len() && #[trigger] stands_in_any_case(
                value,
                search,
                at,
            ),
{
    let hay = filter::ascii_lowered(value);
    let low = filter::ascii_lowered(search);
    assert forall|a: char, b: char|
        same_in_any_case(a, b) == (#[trigger] text::ascii_lower(a) == #[trigger] text::ascii_lower(
            b,
        )) by {
        lemma_same_lower(a, b);
    }
    assert forall|at: int|
        0 <= at && at + search.len() <= value.len() implies #[trigger] text::occurs_at(
        hay,
        low,
        at,
    ) == stands_in_any_case(value, search, at) by {
        let part = hay.subrange(at, at + low.len());
        if text::occurs_at(hay, low, at) {
            assert forall|j: int| 0 <= j < search.len() implies same_in_any_case(
                #[trigger] value[at + j],
                search[j],
            ) by {
                assert(part[j] == low[j]);
                assert(text::ascii_lower(value[at + j]) == text::ascii_lower(search[j]));
            }
        }
        if stands_in_any_case(value, search, at) {
            assert forall|j: int| 0 <= j < low.len() implies part[j] == low[j] by {
                assert(same_in_any_case(value[at + j], search[j]));
                assert(text::ascii_lower(value[at + j]) == text::ascii_lower(search[j]));
            }
            assert(part =~= low);
        }
    }
    if text::has_substring(hay, low) {
        let at = choose|at: int| #[trigger] text::occurs_at(hay, low, at);
        assert(stands_in_any_case(value, search, at));
    }
    if exists|at: int|
        0 <= at && at + search.len() <= value.len() && #[trigger] stands_in_any_case(
            value,
            search,
            at,
        ) {
        let at = choose|at: int|
            0 <= at && at + search.len() <= value.len() && #[trigger] stands_in_any_case(
                value,
                search,
                at,
            );
        assert(text::occurs_at(hay, low, at));
    }
}

proof fn lemma_same_lower(a: char, b: char)
    ensures
        same_in_any_case(a, b) == (text::ascii_lower(a) == text::ascii_lower(b)),
{
}

/// A value is shown under a search text exactly if it reads, in lower case, as the search
/// text with something before and behind it.
pub proof fn found_values_hold_the_search(value: Seq<char>, search: Seq<char>)
    ensures
        found_by(value, search) <==> exists|before: Seq<char>, behind: Seq<char>|
            filter::lowercased(value) == #[trigger] (before + filter::lowercased(search) + behind),
{
    let hay = filter::lowercased(value);
    let low = filter::lowercased(search);
    if low.len() == 0 {
        let none = Seq::<char>::empty();
        assert(none + low + hay =~= hay);
    } else if found_by(value, search) {
        let at = choose|at: int| #[trigger] text::occurs_at(hay, low, at);
        assert(hay.take(at) + low + hay.skip(at + low.len()) =~= hay);
    }
    if exists|before: Seq<char>, behind: Seq<char>| hay == #[trigger] (before + low + behind) {
        let (before, behind) = choose|before: Seq<char>, behind: Seq<char>|
            hay == #[trigger] (before + low + behind);
        let at = before.len() as int;
        assert(hay.subrange(at, at + low.len()) =~= low);
        assert(text::occurs_at(hay, low, at));
    }
}

/// What an entry has in the process, thread or tag column.
pub open spec fn field_of(e: model::EntryView, col: PickerCol) -> Seq<char> {
    match col {
        PickerCol::Pid => e.pid,
        PickerCol::Tid => e.tid,
        PickerCol::Tag => e.tag,
        PickerCol::Level => seq![],
    }
}

/// The options of the process, thread and tag columns are the values that entries of the
/// log have there, each once with the number of those entries. A more frequent one comes
/// first, and of equally frequent ones that whose text comes first.
pub proof fn options_are_the_values_of_entries(
    model: Model,
    col: PickerCol,
    v: Seq<OptionView>,
    i: int,
    k: int,
)
    requires
        model.wf(),
        options_of(model, col, v),
        0 <= i < v.len(),
    ensures
        col == PickerCol::Pid || col == PickerCol::Tid || col == PickerCol::Tag ==> {
            let log = model.log();
            let values = log.map_values(|e: model::EntryView| field_of(e, col));
            &&& v[i].value.len() > 0
            &&& v[i].count == model::occurrences(values, v[i].value)
            &&& i < k < v.len() ==> v[i].value != v[k].value && v[i].count >= v[k].count
            &&& i < k < v.len() && v[i].count == v[k].count ==> order::text_before(
                v[i].value,
                v[k].value,
            )
            &&& 0 <= k < log.len() && field_of(log[k], col).len() > 0 ==> exists|j: int|
                0 <= j < v.len() && (#[trigger] v[j]).value == field_of(log[k], col)
        },
{
    let log = model.log();
    if col != PickerCol::Level {
        let values = log.map_values(|e: model::EntryView| field_of(e, col));
        let counts = match col {
            PickerCol::Pid => model.pid_counts@,
            PickerCol::Tid => model.tid_counts@,
            _ => model.tag_counts@,
        };
        if col == PickerCol::Pid {
            assert(values =~= model::pids(log));
        } else if col == PickerCol::Tid {
            assert(values =~= model::tids(log));
        } else {
            assert(values =~= model::tags(log));
        }
        assert(counts == model::tally(values));
        assert(sorted_options(v, counts));
        assert(counts.contains_key(v[i].value));
        if i < k < v.len() {
            assert(option_before(v[i], v[k]));
            order::text_order_total(v[i].value, v[k].value);
        }
        if 0 <= k < log.len() && field_of(log[k], col).len() > 0 {
            assert(values[k] == field_of(log[k], col));
            assert(values.contains(field_of(log[k], col)));
            model::occurrences_positive(values, field_of(log[k], col));
            assert(counts.contains_key(field_of(log[k], col)));
        }
    }
}

/// The options of the level column are the levels that occur, from the least to the most
/// severe, each with its letter and the number of its entries.
pub proof fn options_are_the_levels_of_entries(
    model: Model,
    v: Seq<OptionView>,
    i: int,
    j: int,
    level: int,
)
    requires
        model.wf(),
        options_of(model, PickerCol::Level, v),
        0 <= i < j < v.len(),
        0 <= level < 6,
    ensures
        v[i].value.len() == 1 && v[j].value.len() == 1,
        LevelMask::from_char(v[i].value[0]) is Some && LevelMask::from_char(v[j].value[0]) is Some,
        LevelMask::from_char(v[i].value[0])->0.bits < LevelMask::from_char(v[j].value[0])->0.bits,
        v[i].count > 0,
        v[i].count == model::level_tally(
            model.log(),
            model::level_index(LevelMask::from_char(v[i].value[0])->0)->0 as int,
        ),
        model.level_counts@[level] > 0 ==> exists|k: int|
            0 <= k < v.len() && LevelMask::from_char((#[trigger] v[k]).value[0]) == Some(
                model::level_mask_at(level),
            ),
{
    let counts = model.level_counts@;
    let (p, q) = lemma_levels_ascend(counts, 6, i, j);
    model::level_positions(p);
    model::level_positions(q);
    model::level_positions(level);
    if counts[level] > 0 {
        let k = lemma_level_is_option(counts, 6, level);
        assert(v[k].value[0] == level_letter(level));
    }
}

/// Where the options of the levels stand among the levels.
proof fn lemma_levels_ascend(counts: Seq<usize>, n: int, i: int, j: int) -> (r: (int, int))
    requires
        0 <= n <= 6,
        0 <= i <= j < level_options(counts, n).len(),
    ensures
        0 <= r.0 <= r.1 < n,
        i < j ==> r.0 < r.1,
        level_options(counts, n)[i] == (OptionView {
            value: seq![level_letter(r.0)],
            count: counts[r.0] as nat,
        }),
        level_options(counts, n)[j] == (OptionView {
            value: seq![level_letter(r.1)],
            count: counts[r.1] as nat,
        }),
        counts[r.0] > 0,
        counts[r.1] > 0,
    decreases n,
{
    let before = level_options(counts, n - 1);
    if j < before.len() {
        lemma_levels_ascend(counts, n - 1, i, j)
    } else if i < before.len() {
        let (p, _) = lemma_levels_ascend(counts, n - 1, i, i);
        (p, n - 1)
    } else {
        (n - 1, n - 1)
    }
}

/// A level that occurs is among the options.
proof fn lemma_level_is_option(counts: Seq<usize>, n: int, level: int) -> (k: int)
    requires
        0 <= level < n <= 6,
        counts[level] > 0,
    ensures
        0 <= k < level_options(counts, n).len(),
        level_options(counts, n)[k] == (OptionView {
            value: seq![level_letter(level)],
            count: counts[level] as nat,
        }),
    decreases n,
{
    if level == n - 1 {
        level_options(counts, n - 1).len() as int
    } else {
        lemma_level_is_option(counts, n - 1, level)
    }
}

/// Choosing the letters of a mask of levels gives the mask again.
pub proof fn letters_and_back(mask: LevelMask)
    requires
        mask.bits <= 63,
    ensures
        letters_mask(mask_letters(mask, 6), 6) == mask,
{
    let s = mask_letters(mask, 6);
    lemma_mask_letters(mask, 6, 0);
    lemma_mask_letters(mask, 6, 1);
    lemma_mask_letters(mask, 6, 2);
    lemma_mask_letters(mask, 6, 3);
    lemma_mask_letters(mask, 6, 4);
    lemma_mask_letters(mask, 6, 5);
    reveal_with_fuel(letters_mask, 7);
    let b = mask.bits;
    let x0: u8 = if b & 1 == 1 {
        0u8 | 1
    } else {
        0
    };
    let x1: u8 = if b & 2 == 2 {
        x0 | 2
    } else {
        x0
    };
    let x2: u8 = if b & 4 == 4 {
        x1 | 4
    } else {
        x1
    };
    let x3: u8 = if b & 8 == 8 {
        x2 | 8
    } else {
        x2
    };
    let x4: u8 = if b & 16 == 16 {
        x3 | 16
    } else {
        x3
    };
    let x5: u8 = if b & 32 == 32 {
        x4 | 32
    } else {
        x4
    };
    assert(x5 == b) by (bit_vector)
        requires
            b <= 63,
            x0 == if b & 1 == 1 {
                0u8 | 1
            } else {
                0
            },
            x1 == if b & 2 == 2 {
                x0 | 2
            } else {
                x0
            },
            x2 == if b & 4 == 4 {
                x1 | 4
            } else {
                x1
            },
            x3 == if b & 8 == 8 {
                x2 | 8
            } else {
                x2
            },
            x4 == if b & 16 == 16 {
                x3 | 16
            } else {
                x3
            },
            x5 == if b & 32 == 32 {
                x4 | 32
            } else {
                x4
            },
    ;
    assert(letters_mask(s, 6).bits == x5);
}

/// The texts are letters of levels.
pub open spec fn only_letters(letters: Set<Seq<char>>) -> bool {
    forall|x: Seq<char>| #[trigger] letters.contains(x) ==> is_letter(x, 6)
}

/// A text is the letter of one of the first `n` levels.
pub open spec fn is_letter(x: Seq<char>, n: int) -> bool {
    exists|i: int| 0 <= i < n && x == seq![#[trigger] level_letter(i)]
}

/// Taking the levels of some letters and their letters again gives the same letters.
pub proof fn levels_and_back(letters: Set<Seq<char>>)
    requires
        only_letters(letters),
    ensures
        mask_letters(letters_mask(letters, 6), 6) == letters,
{
    let mask = letters_mask(letters, 6);
    let c0 = letters.contains(seq![level_letter(0)]);
    let c1 = letters.contains(seq![level_letter(1)]);
    let c2 = letters.contains(seq![level_letter(2)]);
    let c3 = letters.contains(seq![level_letter(3)]);
    let c4 = letters.contains(seq![level_letter(4)]);
    let c5 = letters.contains(seq![level_letter(5)]);
    reveal_with_fuel(letters_mask, 7);
    let x0: u8 = if c0 {
        0u8 | 1
    } else {
        0
    };
    let x1: u8 = if c1 {
        x0 | 2
    } else {
        x0
    };
    let x2: u8 = if c2 {
        x1 | 4
    } else {
        x1
    };
    let x3: u8 = if c3 {
        x2 | 8
    } else {
        x2
    };
    let x4: u8 = if c4 {
        x3 | 16
    } else {
        x3
    };
    let x5: u8 = if c5 {
        x4 | 32
    } else {
        x4
    };
    assert((x5 & 1 == 1) == c0 && (x5 & 2 == 2) == c1 && (x5 & 4 == 4) == c2 && (x5 & 8 == 8) == c3
        && (x5 & 16 == 16) == c4 && (x5 & 32 == 32) == c5) by (bit_vector)
        requires
            x0 == if c0 {
                0u8 | 1
            } else {
                0
            },
            x1 == if c1 {
                x0 | 2
            } else {
                x0
            },
            x2 == if c2 {
                x1 | 4
            } else {
                x1
            },
            x3 == if c3 {
                x2 | 8
            } else {
                x2
            },
            x4 == if c4 {
                x3 | 16
            } else {
                x3
            },
            x5 == if c5 {
                x4 | 32
            } else {
                x4
            },
    ;
    assert(mask.bits == x5);
    let back = mask_letters(mask, 6);
    assert forall|x: Seq<char>| back.contains(x) == letters.contains(x) by {
        lemma_only_letters(mask, 6, x);
        if is_letter(x, 6) {
            let i = choose|i: int| 0 <= i < 6 && x == seq![#[trigger] level_letter(i)];
            lemma_mask_letters(mask, 6, i);
        }
    }
    assert(back =~= letters);
}

/// What a mask of levels gives are letters.
proof fn lemma_only_letters(mask: LevelMask, n: int, x: Seq<char>)
    requires
        0 <= n <= 6,
    ensures
        mask_letters(mask, n).contains(x) ==> is_letter(x, 6),
    decreases n,
{
    if n > 0 {
        lemma_only_letters(mask, n - 1, x);
        if x == seq![level_letter(n - 1)] {
            assert(is_letter(x, 6));
        }
    }
}

/// A letter is among those of a mask exactly if its level is in the mask.
proof fn lemma_mask_letters(mask: LevelMask, n: int, i: int)
    requires
        0 <= i < 6,
        0 <= n <= 6,
    ensures
        mask_letters(mask, n).contains(seq![level_letter(i)]) <==> i < n && mask.contains(
            model::level_mask_at(i),
        ),
    decreases n,
{
    if n > 0 {
        lemma_mask_letters(mask, n - 1, i);
        if i != n - 1 {
            assert(seq![level_letter(i)][0] == level_letter(i));
            assert(seq![level_letter(n - 1)][0] == level_letter(n - 1));
            assert(level_letter(i) != level_letter(n - 1));
        }
    }
}

/// The letters of a mask are those of the levels in it, and each letter is read as its
/// level.
pub proof fn letters_name_their_levels(mask: LevelMask, i: int)
    requires
        0 <= i < 6,
    ensures
        mask_letters(mask, 6).contains(seq![level_letter(i)]) <==> mask.contains(
            model::level_mask_at(i),
        ),
        LevelMask::from_char(level_letter(i)) == Some(model::level_mask_at(i)),
{
    lemma_mask_letters(mask, 6, i);
    model::level_positions(i);
}

} // verus!
