//! The binding selector of the profile screens: which profiles a profile is bound to,
//! which of them is the default, how the selector lists them, and what ticking or
//! unticking one does.

use vstd::prelude::*;

use crate::text::{
    insert_sorted, lemma_text_lt_total, lemma_text_lt_transitive, strictly_sorted, text_equal, text_less, text_lt,
    texts, trim, trim_spec,
};

verus! {

/// `(id, label)` pairs by their texts.
pub open spec fn pairs(v: Seq<(String, String)>) -> Seq<(Seq<char>, Seq<char>)> {
    v.map_values(|p: (String, String)| (p.0@, p.1@))
}

// ---------------------------------------------------------------------------
// Options in id order
// ---------------------------------------------------------------------------

/// Where an option with `id` goes in a list in id order: after every option whose id
/// is not greater.
pub open spec fn insert_position(s: Seq<(Seq<char>, Seq<char>)>, id: Seq<char>) -> int
    decreases s.len(),
{
    if s.len() == 0 {
        0
    } else if text_lt(id, s[0].0) {
        0
    } else {
        1 + insert_position(s.drop_first(), id)
    }
}

/// The options in id order, options with equal ids keeping their order.
pub open spec fn sort_by_id(s: Seq<(Seq<char>, Seq<char>)>) -> Seq<(Seq<char>, Seq<char>)>
    decreases s.len(),
{
    if s.len() == 0 {
        Seq::empty()
    } else {
        let t = sort_by_id(s.drop_last());
        t.insert(insert_position(t, s.last().0), s.last())
    }
}

/// No option comes before one with a smaller id.
pub open spec fn in_id_order(s: Seq<(Seq<char>, Seq<char>)>) -> bool {
    forall|i: int, j: int| 0 <= i < j < s.len() ==> !text_lt(#[trigger] s[j].0, #[trigger] s[i].0)
}

proof fn lemma_insert_position(s: Seq<(Seq<char>, Seq<char>)>, id: Seq<char>)
    ensures
        0 <= insert_position(s, id) <= s.len(),
        forall|k: int| 0 <= k < insert_position(s, id) ==> !text_lt(id, #[trigger] s[k].0),
        insert_position(s, id) < s.len() ==> text_lt(id, s[insert_position(s, id)].0),
    decreases s.len(),
{
    if s.len() > 0 && !text_lt(id, s[0].0) {
        lemma_insert_position(s.drop_first(), id);
        assert forall|k: int| 0 <= k < insert_position(s, id) implies !text_lt(id, #[trigger] s[k].0) by {
            if k > 0 {
                assert(s[k] == s.drop_first()[k - 1]);
            }
        }
    }
}

/// `a` is not greater than `b`, for texts in a total order.
proof fn lemma_not_lt_chain(a: Seq<char>, b: Seq<char>, c: Seq<char>)
    requires
        !text_lt(b, a),
        !text_lt(c, b),
    ensures
        !text_lt(c, a),
{
    if a != b && b != c {
        lemma_text_lt_total(a, b);
        lemma_text_lt_total(b, c);
        lemma_text_lt_transitive(a, b, c);
        lemma_text_lt_asymmetric(a, c);
    }
}

proof fn lemma_text_lt_asymmetric(a: Seq<char>, b: Seq<char>)
    requires
        text_lt(a, b),
    ensures
        !text_lt(b, a),
    decreases a.len(),
{
    if a.len() > 0 && b.len() > 0 && a[0] == b[0] {
        lemma_text_lt_asymmetric(a.drop_first(), b.drop_first());
    }
}

proof fn lemma_lt_not_lt(a: Seq<char>, b: Seq<char>, c: Seq<char>)
    requires
        text_lt(a, b),
        b == c || !text_lt(c, b),
    ensures
        text_lt(a, c),
{
    if b == c {
    } else {
        lemma_text_lt_total(b, c);
        lemma_text_lt_transitive(a, b, c);
    }
}

/// The options of the selector are listed in id order.
pub proof fn lemma_options_in_id_order(s: Seq<(Seq<char>, Seq<char>)>)
    ensures
        in_id_order(sort_by_id(s)),
        sort_by_id(s).len() == s.len(),
    decreases s.len(),
{
    if s.len() > 0 {
        let t = sort_by_id(s.drop_last());
        lemma_options_in_id_order(s.drop_last());
        let x = s.last();
        let p = insert_position(t, x.0);
        lemma_insert_position(t, x.0);
        let r = t.insert(p, x);
        assert forall|i: int, j: int| 0 <= i < j < r.len() implies !text_lt(#[trigger] r[j].0, #[trigger] r[i].0) by {
            if j < p {
                assert(r[i] == t[i] && r[j] == t[j]);
            } else if j == p {
                assert(r[i] == t[i]);
            } else if i < p {
                assert(r[i] == t[i] && r[j] == t[j - 1]);
                assert(!text_lt(x.0, t[i].0));
                assert(text_lt(x.0, t[p].0));
                if p < j - 1 {
                    assert(!text_lt(t[j - 1].0, t[p].0));
                }
                lemma_lt_not_lt(x.0, t[p].0, t[j - 1].0);
                lemma_text_lt_asymmetric(x.0, t[j - 1].0);
                lemma_not_lt_chain(t[i].0, x.0, t[j - 1].0);
            } else if i == p {
                assert(r[j] == t[j - 1]);
                assert(text_lt(x.0, t[p].0));
                if p < j - 1 {
                    assert(!text_lt(t[j - 1].0, t[p].0));
                }
                lemma_lt_not_lt(x.0, t[p].0, t[j - 1].0);
                lemma_text_lt_asymmetric(x.0, t[j - 1].0);
            } else {
                assert(r[i] == t[i - 1] && r[j] == t[j - 1]);
            }
        }
    }
}

fn position_for(out: &Vec<(String, String)>, id: &str) -> (p: usize)
    ensures
        p == insert_position(pairs(out@), id@),
        p <= out@.len(),
{
    let ghost s = pairs(out@);
    let mut p: usize = 0;
    proof {
        assert(s.skip(0) =~= s);
    }
    while p < out.len() && !text_less(id, out[p].0.as_str())
        invariant
            p <= out@.len(),
            s == pairs(out@),
            insert_position(s, id@) == p + insert_position(s.skip(p as int), id@),
        decreases out@.len() - p,
    {
        proof {
            assert(s.skip(p as int).drop_first() =~= s.skip(p + 1));
            assert(s.skip(p as int)[0] == s[p as int]);
        }
        p += 1;
    }
    proof {
        if p < out@.len() {
            assert(s.skip(p as int)[0] == s[p as int]);
        }
        lemma_insert_position(s, id@);
    }
    p
}

/// The options in id order, options with equal ids keeping their order.
pub fn sort_options(options: &Vec<(String, String)>) -> (r: Vec<(String, String)>)
    ensures
        pairs(r@) == sort_by_id(pairs(options@)),
        in_id_order(pairs(r@)),
{
    let ghost all = pairs(options@);
    let mut out: Vec<(String, String)> = Vec::new();
    let mut i: usize = 0;
    proof {
        assert(all.take(0) =~= Seq::<(Seq<char>, Seq<char>)>::empty());
        assert(pairs(out@) =~= Seq::<(Seq<char>, Seq<char>)>::empty());
    }
    while i < options.len()
        invariant
            i <= options@.len(),
            all == pairs(options@),
            pairs(out@) == sort_by_id(all.take(i as int)),
        decreases options@.len() - i,
    {
        let item = (options[i].0.clone(), options[i].1.clone());
        let p = position_for(&out, item.0.as_str());
        let ghost before = pairs(out@);
        out.insert(p, item);
        proof {
            assert(all.take(i + 1).drop_last() =~= all.take(i as int));
            assert(all.take(i + 1).last() == all[i as int]);
            assert(pairs(out@) =~= before.insert(p as int, all[i as int]));
        }
        i += 1;
    }
    proof {
        assert(all.take(options@.len() as int) =~= all);
        lemma_options_in_id_order(all);
    }
    out
}

// ---------------------------------------------------------------------------
// The selector's view
// ---------------------------------------------------------------------------

/// Whether some option has the id.
pub open spec fn is_option(options: Seq<(Seq<char>, Seq<char>)>, id: Seq<char>) -> bool {
    exists|k: int| 0 <= k < options.len() && (#[trigger] options[k]).0 == id
}

/// The bindings the selector shows as ticked: the selected ids that are options, and
/// the default when one is given.
pub open spec fn selection_set(
    options: Seq<(Seq<char>, Seq<char>)>,
    selected_ids: Seq<Seq<char>>,
    default_id: Seq<char>,
) -> Set<Seq<char>> {
    let chosen = selected_ids.to_set().filter(|t: Seq<char>| is_option(options, t));
    if default_id.len() > 0 {
        chosen.insert(default_id)
    } else {
        chosen
    }
}

/// The label of the first option with the id.
pub open spec fn label_of(options: Seq<(Seq<char>, Seq<char>)>, id: Seq<char>) -> Option<Seq<char>>
    decreases options.len(),
{
    if options.len() == 0 {
        None
    } else if options[0].0 == id {
        Some(options[0].1)
    } else {
        label_of(options.drop_first(), id)
    }
}

/// One summary row per selected id that is an option, with its label, in order.
pub open spec fn rows_of(ids: Seq<Seq<char>>, options: Seq<(Seq<char>, Seq<char>)>) -> Seq<(Seq<char>, Seq<char>)>
    decreases ids.len(),
{
    if ids.len() == 0 {
        Seq::empty()
    } else {
        let r = rows_of(ids.drop_last(), options);
        match label_of(options, ids.last()) {
            Some(l) => r.push((ids.last(), l)),
            None => r,
        }
    }
}

/// The index of the first row with the id.
pub open spec fn row_index(rows: Seq<(Seq<char>, Seq<char>)>, id: Seq<char>) -> Option<int>
    decreases rows.len(),
{
    if rows.len() == 0 {
        None
    } else if rows[0].0 == id {
        Some(0)
    } else {
        match row_index(rows.drop_first(), id) {
            Some(k) => Some(k + 1),
            None => None,
        }
    }
}

/// The rows with the default's row moved to the front.
pub open spec fn default_first(rows: Seq<(Seq<char>, Seq<char>)>, id: Seq<char>) -> Seq<(Seq<char>, Seq<char>)> {
    match row_index(rows, id) {
        Some(k) => seq![rows[k]] + rows.remove(k),
        None => rows,
    }
}

/// How the selector shows a profile's bindings.
pub struct BindingView {
    /// The options, `(id, label)`, in id order.
    pub ordered_options: Vec<(String, String)>,
    /// The ticked ids, each once, in increasing order.
    pub selected: Vec<String>,
    /// The default: the one given, else the last ticked id, else empty.
    pub default_selected: String,
    /// The ticked options with their labels, the default's first.
    pub summary_rows: Vec<(String, String)>,
    /// No default was given (or only white space): the selector asks for one.
    pub requires_default: bool,
}

fn has_option(options: &Vec<(String, String)>, id: &str) -> (r: bool)
    ensures
        r == is_option(pairs(options@), id@),
{
    let mut k: usize = 0;
    while k < options.len()
        invariant
            k <= options@.len(),
            forall|j: int| 0 <= j < k ==> options@[j].0@ != id@,
        decreases options@.len() - k,
    {
        if text_equal(options[k].0.as_str(), id) {
            assert(pairs(options@)[k as int].0 == id@);
            return true;
        }
        k += 1;
    }
    proof {
        if is_option(pairs(options@), id@) {
            let j = choose|j: int| 0 <= j < pairs(options@).len() && (#[trigger] pairs(options@)[j]).0 == id@;
            assert(options@[j].0@ == id@);
        }
    }
    false
}

fn contains_id(v: &Vec<String>, id: &str) -> (r: bool)
    ensures
        r == texts(v@).contains(id@),
{
    let mut k: usize = 0;
    while k < v.len()
        invariant
            k <= v@.len(),
            forall|j: int| 0 <= j < k ==> v@[j]@ != id@,
        decreases v@.len() - k,
    {
        if text_equal(v[k].as_str(), id) {
            assert(texts(v@)[k as int] == id@);
            return true;
        }
        k += 1;
    }
    proof {
        if texts(v@).contains(id@) {
            let j = choose|j: int| 0 <= j < texts(v@).len() && texts(v@)[j] == id@;
            assert(v@[j]@ == id@);
        }
    }
    false
}

fn find_label(options: &Vec<(String, String)>, id: &str) -> (r: Option<String>)
    ensures
        match r {
            Some(l) => label_of(pairs(options@), id@) == Some(l@),
            None => label_of(pairs(options@), id@) is None,
        },
{
    let ghost s = pairs(options@);
    let mut k: usize = 0;
    proof {
        assert(s.skip(0) =~= s);
    }
    while k < options.len()
        invariant
            k <= options@.len(),
            s == pairs(options@),
            label_of(s, id@) == label_of(s.skip(k as int), id@),
        decreases options@.len() - k,
    {
        proof {
            assert(s.skip(k as int).drop_first() =~= s.skip(k + 1));
            assert(s.skip(k as int)[0] == s[k as int]);
        }
        if text_equal(options[k].0.as_str(), id) {
            return Some(options[k].1.clone());
        }
        k += 1;
    }
    None
}

fn find_row(rows: &Vec<(String, String)>, id: &str) -> (r: Option<usize>)
    ensures
        match r {
            Some(k) => row_index(pairs(rows@), id@) == Some(k as int) && k < rows@.len(),
            None => row_index(pairs(rows@), id@) is None,
        },
{
    let ghost s = pairs(rows@);
    let mut k: usize = 0;
    proof {
        assert(s.skip(0) =~= s);
    }
    while k < rows.len()
        invariant
            k <= rows@.len(),
            s == pairs(rows@),
            row_index(s, id@) == match row_index(s.skip(k as int), id@) {
                Some(j) => Some(j + k),
                None => None,
            },
        decreases rows@.len() - k,
    {
        proof {
            assert(s.skip(k as int).drop_first() =~= s.skip(k + 1));
            assert(s.skip(k as int)[0] == s[k as int]);
        }
        if text_equal(rows[k].0.as_str(), id) {
            return Some(k);
        }
        k += 1;
    }
    None
}

/// How the selector shows a profile bound to `selected_ids` with default `default_id`,
/// given the `(id, label)` options.
pub fn binding_view(options: &Vec<(String, String)>, selected_ids: &Vec<String>, default_id: &str) -> (r:
    BindingView)
    ensures
        pairs(r.ordered_options@) == sort_by_id(pairs(options@)),
        in_id_order(pairs(r.ordered_options@)),
        strictly_sorted(texts(r.selected@)),
        texts(r.selected@).to_set() == selection_set(pairs(options@), texts(selected_ids@), default_id@),
        r.default_selected@ == (if default_id@.len() > 0 {
            default_id@
        } else if r.selected@.len() > 0 {
            r.selected@.last()@
        } else {
            ""@
        }),
        pairs(r.summary_rows@) == default_first(
            rows_of(texts(r.selected@), pairs(r.ordered_options@)),
            r.default_selected@,
        ),
        r.requires_default == (trim_spec(default_id@).len() == 0),
        texts(r.selected@).contains(r.default_selected@) || (r.selected@.len() == 0
            && r.default_selected@.len() == 0),
{
    let requires_default = trim(default_id).unicode_len() == 0;
    let ordered_options = sort_options(options);
    let ghost opts = pairs(options@);
    let ghost ids = texts(selected_ids@);

    let mut selected: Vec<String> = Vec::new();
    let mut i: usize = 0;
    proof {
        assert(texts(selected@).to_set() =~= Set::<Seq<char>>::empty());
        assert(ids.take(0).to_set().filter(|t: Seq<char>| is_option(opts, t)) =~= Set::<Seq<char>>::empty());
    }
    while i < selected_ids.len()
        invariant
            i <= selected_ids@.len(),
            opts == pairs(options@),
            ids == texts(selected_ids@),
            strictly_sorted(texts(selected@)),
            texts(selected@).to_set() == ids.take(i as int).to_set().filter(|t: Seq<char>| is_option(opts, t)),
        decreases selected_ids@.len() - i,
    {
        let ghost before = texts(selected@).to_set();
        if has_option(options, selected_ids[i].as_str()) {
            insert_sorted(&mut selected, selected_ids[i].clone());
        }
        proof {
            assert(ids.take(i + 1) =~= ids.take(i as int).push(ids[i as int]));
            ids.take(i as int).lemma_push_to_set_commute(ids[i as int]);
            assert(selected_ids@[i as int]@ == ids[i as int]);
            assert(ids.take(i + 1).to_set().filter(|t: Seq<char>| is_option(opts, t)) =~= if is_option(
                opts,
                ids[i as int],
            ) {
                before.insert(ids[i as int])
            } else {
                before
            });
        }
        i += 1;
    }
    proof {
        assert(ids.take(selected_ids@.len() as int) =~= ids);
    }
    if default_id.unicode_len() > 0 {
        insert_sorted(&mut selected, default_id.to_string());
    }
    proof {
        assert(texts(selected@).to_set() =~= selection_set(opts, ids, default_id@));
    }
    let default_selected = if default_id.unicode_len() > 0 {
        default_id.to_string()
    } else if selected.len() > 0 {
        selected[selected.len() - 1].clone()
    } else {
        String::new()
    };
    proof {
        reveal_strlit("");
        if default_id@.len() > 0 {
            assert(texts(selected@).to_set().contains(default_id@));
        } else if selected@.len() > 0 {
            assert(texts(selected@)[selected@.len() - 1] == default_selected@);
            assert(selected@.last() == selected@[selected@.len() - 1]);
        }
    }

    let ghost ordered = pairs(ordered_options@);
    let mut rows: Vec<(String, String)> = Vec::new();
    let mut k: usize = 0;
    proof {
        assert(texts(selected@).take(0) =~= Seq::<Seq<char>>::empty());
        assert(pairs(rows@) =~= Seq::<(Seq<char>, Seq<char>)>::empty());
    }
    while k < selected.len()
        invariant
            k <= selected@.len(),
            ordered == pairs(ordered_options@),
            pairs(rows@) == rows_of(texts(selected@).take(k as int), ordered),
        decreases selected@.len() - k,
    {
        let ghost before = pairs(rows@);
        proof {
            assert(texts(selected@).take(k + 1).drop_last() =~= texts(selected@).take(k as int));
            assert(texts(selected@).take(k + 1).last() == selected@[k as int]@);
        }
        match find_label(&ordered_options, selected[k].as_str()) {
            Some(label) => {
                rows.push((selected[k].clone(), label));
                proof {
                    assert(pairs(rows@) =~= before.push((selected@[k as int]@, label@)));
                }
            },
            None => {},
        }
        k += 1;
    }
    proof {
        assert(texts(selected@).take(selected@.len() as int) =~= texts(selected@));
    }
    let ghost all_rows = pairs(rows@);
    match find_row(&rows, default_selected.as_str()) {
        Some(idx) => {
            let item = rows.remove(idx);
            rows.insert(0, item);
            proof {
                assert(pairs(rows@) =~= seq![all_rows[idx as int]] + all_rows.remove(idx as int));
            }
        },
        None => {},
    }
    BindingView { ordered_options, selected, default_selected, summary_rows: rows, requires_default }
}

// ---------------------------------------------------------------------------
// Ticking and unticking
// ---------------------------------------------------------------------------

/// The ticked ids after `option` is ticked or unticked.
pub open spec fn toggle_set(selected: Set<Seq<char>>, option: Seq<char>) -> Set<Seq<char>> {
    if selected.contains(option) {
        selected.remove(option)
    } else {
        selected.insert(option)
    }
}

/// The default after `option` is ticked (`was_ticked` false) or unticked, `next` being
/// the ticked ids in increasing order: none when nothing is ticked, the option just
/// ticked, the old default while it stays ticked, else the last ticked id.
pub open spec fn toggle_default(
    next: Seq<Seq<char>>,
    default_id: Seq<char>,
    option: Seq<char>,
    was_ticked: bool,
) -> Seq<char> {
    if next.len() == 0 {
        ""@
    } else if !was_ticked {
        option
    } else if !next.contains(default_id) {
        next.last()
    } else {
        default_id
    }
}

/// Ticks `option_id` when it is not ticked and unticks it when it is; returns the
/// ticked ids, each once in increasing order, and the default.
pub fn toggle_binding(selected: &Vec<String>, default_id: &str, option_id: &str) -> (r: (Vec<String>, String))
    ensures
        strictly_sorted(texts(r.0@)),
        texts(r.0@).to_set() == toggle_set(texts(selected@).to_set(), option_id@),
        r.1@ == toggle_default(texts(r.0@), default_id@, option_id@, texts(selected@).contains(option_id@)),
        texts(r.0@).contains(r.1@) || (r.0@.len() == 0 && r.1@.len() == 0),
{
    let already = contains_id(selected, option_id);
    let ghost old_set = texts(selected@).to_set();
    let mut next: Vec<String> = Vec::new();
    let mut i: usize = 0;
    proof {
        assert(texts(next@).to_set() =~= Set::<Seq<char>>::empty());
        assert(texts(selected@).take(0).to_set() =~= Set::<Seq<char>>::empty());
    }
    while i < selected.len()
        invariant
            i <= selected@.len(),
            strictly_sorted(texts(next@)),
            texts(next@).to_set() == texts(selected@).take(i as int).to_set().remove(option_id@),
        decreases selected@.len() - i,
    {
        let ghost before = texts(next@).to_set();
        if !text_equal(selected[i].as_str(), option_id) {
            insert_sorted(&mut next, selected[i].clone());
        }
        proof {
            assert(texts(selected@).take(i + 1) =~= texts(selected@).take(i as int).push(selected@[i as int]@));
            texts(selected@).take(i as int).lemma_push_to_set_commute(selected@[i as int]@);
            assert(texts(next@).to_set() =~= texts(selected@).take(i + 1).to_set().remove(option_id@));
        }
        i += 1;
    }
    proof {
        assert(texts(selected@).take(selected@.len() as int) =~= texts(selected@));
    }
    if !already {
        insert_sorted(&mut next, option_id.to_string());
    }
    proof {
        if already {
            assert(old_set.contains(option_id@));
        } else {
            assert(!old_set.contains(option_id@));
            assert(old_set.remove(option_id@) =~= old_set);
        }
        assert(texts(next@).to_set() =~= toggle_set(old_set, option_id@));
    }
    let default_next = if next.len() == 0 {
        String::new()
    } else if !already {
        option_id.to_string()
    } else if !contains_id(&next, default_id) {
        next[next.len() - 1].clone()
    } else {
        default_id.to_string()
    };
    proof {
        reveal_strlit("");
        if next@.len() > 0 {
            if !already {
                assert(texts(next@).to_set().contains(option_id@));
            } else if !texts(next@).contains(default_id@) {
                assert(texts(next@)[next@.len() - 1] == texts(next@).last());
            }
        }
    }
    (next, default_next)
}

/// Ticking a binding and ticking it again gives the ticked set back, whichever way
/// round.
pub proof fn lemma_toggle_twice_restores_selection(selected: Set<Seq<char>>, option: Seq<char>)
    ensures
        toggle_set(toggle_set(selected, option), option) == selected,
{
    if selected.contains(option) {
        assert(selected.remove(option).insert(option) =~= selected);
    } else {
        assert(selected.insert(option).remove(option) =~= selected);
    }
}

} // verus!
