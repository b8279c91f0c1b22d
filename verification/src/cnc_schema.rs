//! Reading CNC profile documents: a YAML tree as the readers see it, the dotted paths
//! of the fields a profile schema requires, what a built-in machine template supplies
//! and what it leaves for the operator to fill in, and what an imported machine
//! profile is read as.

use vstd::prelude::*;

use crate::text::{
    file_name_spec, insert_sorted, portable_path, stem_of_name, strictly_sorted, text_equal, texts, trim, trim_spec,
};
use crate::ui_text::{alnum_lower, slug};

verus! {

// ---------------------------------------------------------------------------
// The tree
// ---------------------------------------------------------------------------

/// A parsed YAML document, as far as the readers look into it.
#[derive(Debug)]
pub enum YamlNode {
    Null,
    Bool(bool),
    /// A number, with its value when it is an integer within `i64`.
    Number(Option<i64>),
    Text(String),
    Sequence(Vec<YamlNode>),
    /// Key–value pairs in document order; a document never repeats a key.
    Mapping(Vec<(YamlNode, YamlNode)>),
    /// A tagged value; every lookup sees through the tag to the value.
    Tagged(Box<YamlNode>),
}

/// The node with its tags removed.
pub open spec fn untag(n: YamlNode) -> YamlNode
    decreases n,
{
    match n {
        YamlNode::Tagged(b) => untag(*b),
        _ => n,
    }
}

/// Whether a node is the plain text `key` (a tagged text is another key).
pub open spec fn is_key(n: YamlNode, key: Seq<char>) -> bool {
    n matches YamlNode::Text(s) && s@ == key
}

/// The index of the first pair whose key is `key`.
pub open spec fn entry_index(es: Seq<(YamlNode, YamlNode)>, key: Seq<char>) -> Option<int>
    decreases es.len(),
{
    if es.len() == 0 {
        None
    } else if is_key(es[0].0, key) {
        Some(0)
    } else {
        match entry_index(es.drop_first(), key) {
            Some(k) => Some(k + 1),
            None => None,
        }
    }
}

/// The value under `key` when the node is a mapping that has it.
pub open spec fn node_get(n: YamlNode, key: Seq<char>) -> Option<YamlNode> {
    match untag(n) {
        YamlNode::Mapping(es) => match entry_index(es@, key) {
            Some(k) => Some(es@[k].1),
            None => None,
        },
        _ => None,
    }
}

/// The text of a text node.
pub open spec fn as_text(n: YamlNode) -> Option<Seq<char>> {
    match untag(n) {
        YamlNode::Text(s) => Some(s@),
        _ => None,
    }
}

/// The items of a sequence node.
pub open spec fn as_items(n: YamlNode) -> Option<Seq<YamlNode>> {
    match untag(n) {
        YamlNode::Sequence(v) => Some(v@),
        _ => None,
    }
}

/// The value of an integer node within `i64`.
pub open spec fn as_integer(n: YamlNode) -> Option<i64> {
    match untag(n) {
        YamlNode::Number(i) => i,
        _ => None,
    }
}

/// A number of any kind.
pub open spec fn is_number(n: YamlNode) -> bool {
    untag(n) is Number
}

/// The value at a path of keys.
pub open spec fn path_get(n: YamlNode, keys: Seq<Seq<char>>) -> Option<YamlNode>
    decreases keys.len(),
{
    if keys.len() == 0 {
        Some(n)
    } else {
        match path_get(n, keys.drop_last()) {
            Some(m) => node_get(m, keys.last()),
            None => None,
        }
    }
}

proof fn lemma_untag_below(n: YamlNode)
    ensures
        untag(n) == n || decreases_to!(n => untag(n)),
    decreases n,
{
    match n {
        YamlNode::Tagged(b) => {
            lemma_untag_below(*b);
        },
        _ => {},
    }
}

proof fn lemma_entry_index(es: Seq<(YamlNode, YamlNode)>, key: Seq<char>)
    ensures
        entry_index(es, key) matches Some(k) ==> 0 <= k < es.len() && is_key(es[k].0, key)
            && forall|j: int| 0 <= j < k ==> !is_key(#[trigger] es[j].0, key),
        entry_index(es, key) is None ==> forall|j: int| 0 <= j < es.len() ==> !is_key(#[trigger] es[j].0, key),
    decreases es.len(),
{
    if es.len() > 0 {
        lemma_entry_index(es.drop_first(), key);
        assert forall|j: int| 1 <= j < es.len() implies es[j] == es.drop_first()[j - 1] by {}
    }
}

proof fn lemma_entry_index_first(es: Seq<(YamlNode, YamlNode)>, key: Seq<char>, k: int)
    requires
        0 <= k < es.len(),
        is_key(es[k].0, key),
        forall|j: int| 0 <= j < k ==> !is_key(#[trigger] es[j].0, key),
    ensures
        entry_index(es, key) == Some(k),
    decreases k,
{
    if k > 0 {
        assert(es.drop_first()[k - 1] == es[k]);
        assert forall|j: int| 0 <= j < k - 1 implies !is_key(#[trigger] es.drop_first()[j].0, key) by {
            assert(es.drop_first()[j] == es[j + 1]);
        }
        lemma_entry_index_first(es.drop_first(), key, k - 1);
    }
}

/// What a lookup returns lies strictly inside the node it was looked up in.
proof fn lemma_get_below(n: YamlNode, key: Seq<char>)
    ensures
        node_get(n, key) matches Some(c) ==> decreases_to!(n => c),
{
    broadcast use vstd::std_specs::vec::group_vec_axioms;

    lemma_untag_below(n);
    match untag(n) {
        YamlNode::Mapping(v) => {
            lemma_entry_index(v@, key);
            match entry_index(v@, key) {
                Some(k) => {
                    assert(decreases_to!(v => v[k]));
                    assert(decreases_to!(untag(n) => v@[k].1));
                },
                None => {},
            }
        },
        _ => {},
    }
}

fn untagged(n: &YamlNode) -> (r: &YamlNode)
    ensures
        *r == untag(*n),
    decreases n,
{
    match n {
        YamlNode::Tagged(b) => untagged(b),
        _ => n,
    }
}

/// The value under `key` in a mapping node.
pub fn lookup<'a>(n: &'a YamlNode, key: &str) -> (r: Option<&'a YamlNode>)
    ensures
        match r {
            Some(c) => node_get(*n, key@) == Some(*c),
            None => node_get(*n, key@) is None,
        },
{
    match untagged(n) {
        YamlNode::Mapping(es) => {
            proof {
                lemma_entry_index(es@, key@);
            }
            let mut k: usize = 0;
            while k < es.len()
                invariant
                    k <= es@.len(),
                    untag(*n) == YamlNode::Mapping(*es),
                    forall|j: int| 0 <= j < k ==> !is_key(#[trigger] es@[j].0, key@),
                decreases es@.len() - k,
            {
                let hit = match &es[k].0 {
                    YamlNode::Text(s) => text_equal(s.as_str(), key),
                    _ => false,
                };
                if hit {
                    proof {
                        lemma_entry_index_first(es@, key@, k as int);
                    }
                    return Some(&es[k].1);
                }
                k += 1;
            }
            None
        },
        _ => None,
    }
}

/// The text of a text node.
pub fn text_of_node(n: &YamlNode) -> (r: Option<&str>)
    ensures
        match r {
            Some(s) => as_text(*n) == Some(s@),
            None => as_text(*n) is None,
        },
{
    match untagged(n) {
        YamlNode::Text(s) => Some(s.as_str()),
        _ => None,
    }
}

fn items_of(n: &YamlNode) -> (r: Option<&Vec<YamlNode>>)
    ensures
        match r {
            Some(v) => as_items(*n) == Some(v@),
            None => as_items(*n) is None,
        },
{
    match untagged(n) {
        YamlNode::Sequence(v) => Some(v),
        _ => None,
    }
}

// ---------------------------------------------------------------------------
// Required fields of a schema
// ---------------------------------------------------------------------------

/// A field's dotted path below `prefix` (an empty prefix is no prefix).
pub open spec fn child_path(prefix: Option<Seq<char>>, name: Seq<char>) -> Seq<char> {
    match prefix {
        Some(p) => if p.len() > 0 {
            p + "."@ + name
        } else {
            name
        },
        None => name,
    }
}

/// The entries of a schema node's `required` list (none when it has no list).
pub open spec fn required_items(n: YamlNode) -> Seq<YamlNode> {
    match node_get(n, "required"@) {
        Some(r) => match as_items(r) {
            Some(v) => v,
            None => Seq::empty(),
        },
        None => Seq::empty(),
    }
}

/// The schema of a required field, from the node's `properties`.
pub open spec fn property(n: YamlNode, name: Seq<char>) -> Option<YamlNode> {
    match node_get(n, "properties"@) {
        Some(p) => node_get(p, name),
        None => None,
    }
}

/// The dotted paths of every field a schema node requires, below `prefix`, and those
/// its required fields' own schemas require, recursively.
pub open spec fn required_paths(n: YamlNode, prefix: Option<Seq<char>>) -> Set<Seq<char>>
    decreases n, required_items(n).len() + 1,
{
    names_paths(n, prefix, required_items(n).len())
}

/// The paths contributed by the first `k` entries of a node's `required` list; an
/// entry that is not text contributes nothing.
pub open spec fn names_paths(n: YamlNode, prefix: Option<Seq<char>>, k: nat) -> Set<Seq<char>>
    decreases n, k,
{
    if k == 0 || k > required_items(n).len() {
        Set::empty()
    } else {
        let rest = names_paths(n, prefix, (k - 1) as nat);
        match as_text(required_items(n)[k - 1]) {
            None => rest,
            Some(name) => {
                let path = child_path(prefix, name);
                match property(n, name) {
                    Some(c) => {
                        proof {
                            lemma_property_below(n, name);
                        }
                        rest.insert(path).union(required_paths(c, Some(path)))
                    },
                    None => rest.insert(path),
                }
            },
        }
    }
}

/// The schema of a required field lies strictly inside the node that requires it.
pub proof fn lemma_property_below(n: YamlNode, name: Seq<char>)
    ensures
        property(n, name) matches Some(c) ==> decreases_to!(n => c),
{
    lemma_get_below(n, "properties"@);
    match node_get(n, "properties"@) {
        Some(p) => {
            lemma_get_below(p, name);
        },
        None => {},
    }
}

/// An optional text by its view.
pub open spec fn opt_text(o: Option<&str>) -> Option<Seq<char>> {
    match o {
        Some(s) => Some(s@),
        None => None,
    }
}

fn join_path(prefix: Option<&str>, name: &str) -> (r: String)
    ensures
        r@ == child_path(opt_text(prefix), name@),
{
    let mut out = String::new();
    match prefix {
        Some(p) => {
            if p.unicode_len() > 0 {
                out.append(p);
                out.append(".");
            }
        },
        None => {},
    }
    out.append(name);
    out
}

/// Adds to `out` the dotted path of every field the schema `node` requires, below
/// `prefix`, and, through the node's `properties`, the fields those fields require.
pub fn collect_required_paths(node: &YamlNode, prefix: Option<&str>, out: &mut Vec<String>)
    requires
        strictly_sorted(texts(old(out)@)),
    ensures
        strictly_sorted(texts(final(out)@)),
        texts(final(out)@).to_set() == texts(old(out)@).to_set().union(required_paths(*node, opt_text(prefix))),
    decreases node,
{
    let ghost start = texts(out@).to_set();
    let ghost items = required_items(*node);
    let required = match lookup(node, "required") {
        Some(r) => match items_of(r) {
            Some(v) => v,
            None => {
                proof {
                    assert(texts(out@).to_set() =~= start.union(required_paths(*node, opt_text(prefix))));
                }
                return;
            },
        },
        None => {
            proof {
                assert(texts(out@).to_set() =~= start.union(required_paths(*node, opt_text(prefix))));
            }
            return;
        },
    };
    let properties = lookup(node, "properties");
    let mut i: usize = 0;
    proof {
        assert(texts(out@).to_set() =~= start.union(names_paths(*node, opt_text(prefix), 0)));
    }
    while i < required.len()
        invariant
            i <= required@.len(),
            items == required@,
            items == required_items(*node),
            match properties {
                Some(p) => node_get(*node, "properties"@) == Some(*p),
                None => node_get(*node, "properties"@) is None,
            },
            strictly_sorted(texts(out@)),
            texts(out@).to_set() == start.union(names_paths(*node, opt_text(prefix), i as nat)),
        decreases required@.len() - i,
    {
        let ghost before = texts(out@).to_set();
        match text_of_node(&required[i]) {
            None => {},
            Some(name) => {
                let path = join_path(prefix, name);
                insert_sorted(out, path.clone());
                match properties {
                    Some(props) => match lookup(props, name) {
                        Some(child) => {
                            proof {
                                lemma_property_below(*node, name@);
                            }
                            collect_required_paths(child, Some(path.as_str()), out);
                        },
                        None => {},
                    },
                    None => {},
                }
            },
        }
        proof {
            assert(texts(out@).to_set() =~= start.union(names_paths(*node, opt_text(prefix), (i + 1) as nat)));
        }
        i += 1;
    }
    proof {
        assert(texts(out@).to_set() =~= start.union(required_paths(*node, opt_text(prefix))));
    }
}

// ---------------------------------------------------------------------------
// Built-in machine templates
// ---------------------------------------------------------------------------

/// What a built-in machine template supplies, field by field; a field it does not
/// supply (or supplies in the wrong form) is `None` and keeps the profile's default.
/// The axis scaling factors are read by the caller: they are floating point.
pub struct MachineTemplate {
    /// The key the template is listed under.
    pub key: String,
    /// `template-` followed by the key's slug.
    pub id: String,
    /// The document's `name`, trimmed, or the fallback name when it has no usable one.
    pub name: String,
    /// The rate texts, for the unit parser.
    pub max_feed_rate: Option<String>,
    pub spindle_rpm_min: Option<String>,
    pub spindle_rpm_max: Option<String>,
    /// The tool-changer slot count, clamped to `0..=255`.
    pub atc_slot_count: Option<u8>,
    /// The line-numbering increment: a negative one counts as 0, and it is kept as a
    /// `u16` keeps it, modulo 65536.
    pub line_numbering_increment: Option<u16>,
    /// The G-code primitives it supplies.
    pub primitives: MachinePrimitives,
    /// The schema-required fields the template leaves unset, in increasing text order.
    pub pending_required_fields: Vec<String>,
    /// Whether the template leaves no required field unset.
    pub usable: bool,
}

/// The G-code primitives a machine document supplies, trailing newlines removed, by
/// the profile field each fills; `None` keeps the profile's default.
pub struct MachinePrimitives {
    pub gcode_header: Option<String>,
    pub gcode_footer: Option<String>,
    pub drill_first_move: Option<String>,
    pub drill_cycle_mode_last: Option<String>,
    pub drill_cycle_mode_series: Option<String>,
    pub drill_cycle_start: Option<String>,
    pub drill_next_hole: Option<String>,
    pub drill_cycle_cancel: Option<String>,
    pub route_plunge_and_offset: Option<String>,
    pub route_arc_up: Option<String>,
    pub route_arc_down: Option<String>,
    pub route_retract: Option<String>,
    pub tool_change_command: Option<String>,
}

/// The primitives of a document, by the profile field each fills.
pub open spec fn primitives_are(p: MachinePrimitives, root: YamlNode) -> bool {
    &&& opt_string(p.gcode_header) == primitive_at(root, "initialise"@)
    &&& opt_string(p.gcode_footer) == primitive_at(root, "conclude"@)
    &&& opt_string(p.drill_first_move) == primitive_at(root, "rapid_move"@)
    &&& opt_string(p.drill_cycle_mode_last) == primitive_at(root, "peck_drill"@)
    &&& opt_string(p.drill_cycle_mode_series) == primitive_at(root, "linear_cut"@)
    &&& opt_string(p.drill_cycle_start) == primitive_at(root, "start_spindle"@)
    &&& opt_string(p.drill_next_hole) == primitive_at(root, "drill"@)
    &&& opt_string(p.drill_cycle_cancel) == primitive_at(root, "stop_spindle"@)
    &&& opt_string(p.route_plunge_and_offset) == primitive_at(root, "cut_arc"@)
    &&& opt_string(p.route_arc_up) == primitive_at(root, "cut_bezier"@)
    &&& opt_string(p.route_arc_down) == primitive_at(root, "pause"@)
    &&& opt_string(p.route_retract) == primitive_at(root, "banner"@)
    &&& opt_string(p.tool_change_command) == primitive_at(root, "change_tool"@)
}

/// Reads the G-code primitives of a machine document.
pub fn read_primitives(root: &YamlNode) -> (p: MachinePrimitives)
    ensures
        primitives_are(p, *root),
{
    MachinePrimitives {
        gcode_header: primitive(root, "initialise"),
        gcode_footer: primitive(root, "conclude"),
        drill_first_move: primitive(root, "rapid_move"),
        drill_cycle_mode_last: primitive(root, "peck_drill"),
        drill_cycle_mode_series: primitive(root, "linear_cut"),
        drill_cycle_start: primitive(root, "start_spindle"),
        drill_next_hole: primitive(root, "drill"),
        drill_cycle_cancel: primitive(root, "stop_spindle"),
        route_plunge_and_offset: primitive(root, "cut_arc"),
        route_arc_up: primitive(root, "cut_bezier"),
        route_arc_down: primitive(root, "pause"),
        route_retract: primitive(root, "banner"),
        tool_change_command: primitive(root, "change_tool"),
    }
}

/// The text at a path of keys.
pub open spec fn text_at(root: YamlNode, keys: Seq<Seq<char>>) -> Option<Seq<char>> {
    match path_get(root, keys) {
        Some(n) => as_text(n),
        None => None,
    }
}

/// The integer at a path of keys.
pub open spec fn integer_at(root: YamlNode, keys: Seq<Seq<char>>) -> Option<i64> {
    match path_get(root, keys) {
        Some(n) => as_integer(n),
        None => None,
    }
}

/// Whether a number stands at a path of keys.
pub open spec fn number_at(root: YamlNode, keys: Seq<Seq<char>>) -> bool {
    match path_get(root, keys) {
        Some(n) => is_number(n),
        None => false,
    }
}

/// `path` when `missing`, else nothing.
pub open spec fn gap(missing: bool, path: Seq<char>) -> Seq<Seq<char>> {
    if missing {
        seq![path]
    } else {
        Seq::empty()
    }
}

/// The machine fields a template leaves unset, in the order they are read.
pub open spec fn machine_field_gaps(root: YamlNode) -> Seq<Seq<char>> {
    gap(text_at(root, seq!["machine"@, "max_feed_rate"@]) is None, "machine.max_feed_rate"@)
        + gap(text_at(root, seq!["machine"@, "spindle_rpm_min"@]) is None, "machine.spindle_rpm_min"@)
        + gap(text_at(root, seq!["machine"@, "spindle_rpm_max"@]) is None, "machine.spindle_rpm_max"@)
        + gap(integer_at(root, seq!["machine"@, "atc_slot_count"@]) is None, "machine.atc_slot_count"@)
        + gap(!number_at(root, seq!["machine"@, "scaling"@, "x"@]), "machine.scaling.x"@)
        + gap(!number_at(root, seq!["machine"@, "scaling"@, "y"@]), "machine.scaling.y"@)
        + gap(
        integer_at(root, seq!["machine"@, "line_numbering_increment"@]) is None,
        "machine.line_numbering_increment"@,
    )
}

/// The primitives every machine needs, in the order they are checked.
pub open spec fn needed_primitives() -> Seq<Seq<char>> {
    seq![
        "initialise"@,
        "rapid_move"@,
        "linear_cut"@,
        "start_spindle"@,
        "stop_spindle"@,
        "drill"@,
        "peck_drill"@,
        "cut_arc"@,
        "cut_bezier"@,
        "change_tool"@,
        "conclude"@,
    ]
}

/// The needed primitives a template does not have at all, as field paths.
pub open spec fn primitive_gaps(root: YamlNode, names: Seq<Seq<char>>) -> Seq<Seq<char>>
    decreases names.len(),
{
    if names.len() == 0 {
        Seq::empty()
    } else {
        primitive_gaps(root, names.drop_last()) + gap(
            path_get(root, seq!["primitives"@, names.last()]) is None,
            "primitives."@ + names.last(),
        )
    }
}

/// The paths a template leaves unset that the schema requires.
pub open spec fn pending_fields(root: YamlNode, required: Set<Seq<char>>) -> Set<Seq<char>> {
    (machine_field_gaps(root) + primitive_gaps(root, needed_primitives())).to_set().filter(
        |p: Seq<char>| required.contains(p),
    )
}

/// A text without its trailing newlines.
pub open spec fn trim_newlines_end(s: Seq<char>) -> Seq<char>
    decreases s.len(),
{
    if s.len() > 0 && s.last() == '\n' {
        trim_newlines_end(s.drop_last())
    } else {
        s
    }
}

/// A primitive's text, trailing newlines removed.
pub open spec fn primitive_at(root: YamlNode, key: Seq<char>) -> Option<Seq<char>> {
    match text_at(root, seq!["primitives"@, key]) {
        Some(t) => Some(trim_newlines_end(t)),
        None => None,
    }
}

/// The template's name: its own, trimmed, unless that is empty.
pub open spec fn template_name(root: YamlNode, fallback: Seq<char>) -> Seq<char> {
    match text_at(root, seq!["name"@]) {
        Some(t) => if trim_spec(t).len() > 0 {
            trim_spec(t)
        } else {
            fallback
        },
        None => fallback,
    }
}

/// A machine key's slug.
pub open spec fn slug_spec(key: Seq<char>) -> Seq<char> {
    if alnum_lower(key).len() == 0 {
        "machine"@
    } else {
        alnum_lower(key)
    }
}

/// An optional string by its text.
pub open spec fn opt_string(o: Option<String>) -> Option<Seq<char>> {
    match o {
        Some(s) => Some(s@),
        None => None,
    }
}

fn lookup_path<'a>(root: &'a YamlNode, keys: &Vec<&str>) -> (r: Option<&'a YamlNode>)
    ensures
        match r {
            Some(n) => path_get(*root, keys@.map_values(|k: &str| k@)) == Some(*n),
            None => path_get(*root, keys@.map_values(|k: &str| k@)) is None,
        },
{
    let ghost ks = keys@.map_values(|k: &str| k@);
    let mut cur: &YamlNode = root;
    let mut i: usize = 0;
    proof {
        assert(ks.take(0) =~= Seq::<Seq<char>>::empty());
    }
    while i < keys.len()
        invariant
            i <= keys@.len(),
            ks == keys@.map_values(|k: &str| k@),
            path_get(*root, ks.take(i as int)) == Some(*cur),
        decreases keys@.len() - i,
    {
        proof {
            assert(ks.take(i + 1).drop_last() =~= ks.take(i as int));
            assert(ks.take(i + 1).last() == keys@[i as int]@);
        }
        match lookup(cur, keys[i]) {
            Some(next) => {
                cur = next;
            },
            None => {
                proof {
                    lemma_path_get_none_extends(*root, ks, i as int + 1);
                }
                return None;
            },
        }
        i += 1;
    }
    proof {
        assert(ks.take(keys@.len() as int) =~= ks);
    }
    Some(cur)
}

proof fn lemma_path_get_none_extends(root: YamlNode, ks: Seq<Seq<char>>, i: int)
    requires
        0 <= i <= ks.len(),
        path_get(root, ks.take(i)) is None,
    ensures
        path_get(root, ks) is None,
    decreases ks.len() - i,
{
    if i < ks.len() {
        assert(ks.take(i + 1).drop_last() =~= ks.take(i));
        lemma_path_get_none_extends(root, ks, i + 1);
    } else {
        assert(ks.take(i) =~= ks);
    }
}

fn text_path(root: &YamlNode, keys: &Vec<&str>) -> (r: Option<String>)
    ensures
        opt_string(r) == text_at(*root, keys@.map_values(|k: &str| k@)),
{
    match lookup_path(root, keys) {
        Some(n) => match text_of_node(n) {
            Some(t) => Some(t.to_string()),
            None => None,
        },
        None => None,
    }
}

fn integer_path(root: &YamlNode, keys: &Vec<&str>) -> (r: Option<i64>)
    ensures
        r == integer_at(*root, keys@.map_values(|k: &str| k@)),
{
    match lookup_path(root, keys) {
        Some(n) => match untagged(n) {
            YamlNode::Number(i) => *i,
            _ => None,
        },
        None => None,
    }
}

fn number_path(root: &YamlNode, keys: &Vec<&str>) -> (r: bool)
    ensures
        r == number_at(*root, keys@.map_values(|k: &str| k@)),
{
    match lookup_path(root, keys) {
        Some(n) => match untagged(n) {
            YamlNode::Number(_) => true,
            _ => false,
        },
        None => false,
    }
}

fn trimmed_newlines(s: &str) -> (r: String)
    ensures
        r@ == trim_newlines_end(s@),
{
    let n = s.unicode_len();
    let mut end: usize = n;
    proof {
        assert(s@.take(n as int) =~= s@);
    }
    while end > 0 && s.get_char(end - 1) == '\n'
        invariant
            n == s@.len(),
            end <= n,
            trim_newlines_end(s@) == trim_newlines_end(s@.take(end as int)),
        decreases end,
    {
        proof {
            assert(s@.take(end as int).drop_last() =~= s@.take(end - 1));
        }
        end -= 1;
    }
    let r = s.substring_char(0, end).to_string();
    proof {
        assert(s@.subrange(0, end as int) =~= s@.take(end as int));
    }
    r
}

fn primitive(root: &YamlNode, key: &str) -> (r: Option<String>)
    ensures
        opt_string(r) == primitive_at(*root, key@),
{
    let keys: Vec<&str> = vec!["primitives", key];
    proof {
        assert(keys@.map_values(|k: &str| k@) =~= seq!["primitives"@, key@]);
    }
    match text_path(root, &keys) {
        Some(t) => Some(trimmed_newlines(t.as_str())),
        None => None,
    }
}

fn contains_text(v: &Vec<String>, t: &str) -> (r: bool)
    ensures
        r == texts(v@).contains(t@),
{
    let mut i: usize = 0;
    while i < v.len()
        invariant
            i <= v@.len(),
            forall|k: int| 0 <= k < i ==> v@[k]@ != t@,
        decreases v@.len() - i,
    {
        if text_equal(v[i].as_str(), t) {
            assert(texts(v@)[i as int] == t@);
            return true;
        }
        i += 1;
    }
    proof {
        if texts(v@).contains(t@) {
            let k = choose|k: int| 0 <= k < texts(v@).len() && texts(v@)[k] == t@;
            assert(v@[k]@ == t@);
        }
    }
    false
}

/// Records `path` as pending when it is `missing` and required.
fn note_gap(pending: &mut Vec<String>, required: &Vec<String>, missing: bool, path: &str)
    requires
        strictly_sorted(texts(old(pending)@)),
    ensures
        strictly_sorted(texts(final(pending)@)),
        texts(final(pending)@).to_set() == texts(old(pending)@).to_set().union(
            gap(missing, path@).to_set().filter(|p: Seq<char>| texts(required@).to_set().contains(p)),
        ),
{
    let ghost before = texts(pending@).to_set();
    let ghost req = texts(required@).to_set();
    if missing && contains_text(required, path) {
        insert_sorted(pending, path.to_string());
        proof {
            assert(req.contains(path@));
            assert(gap(missing, path@) == seq![path@]);
            assert(seq![path@].to_set() =~= set![path@]) by {
                assert(seq![path@][0] == path@);
            }
            assert(gap(missing, path@).to_set().filter(|p: Seq<char>| req.contains(p)) =~= set![path@]);
            assert(texts(pending@).to_set() =~= before.union(set![path@]));
        }
    } else {
        proof {
            assert(gap(missing, path@).to_set().filter(|p: Seq<char>| req.contains(p)) =~= Set::empty());
            assert(before.union(Set::empty()) =~= before);
        }
    }
}

proof fn lemma_to_set_concat(a: Seq<Seq<char>>, b: Seq<Seq<char>>)
    ensures
        (a + b).to_set() == a.to_set().union(b.to_set()),
{
    assert forall|x: Seq<char>| (a + b).to_set().contains(x) == a.to_set().union(b.to_set()).contains(x) by {
        if (a + b).contains(x) {
            let k = choose|k: int| 0 <= k < (a + b).len() && (a + b)[k] == x;
            if k < a.len() {
                assert(a[k] == x);
            } else {
                assert(b[k - a.len()] == x);
            }
        }
        if a.contains(x) {
            let k = choose|k: int| 0 <= k < a.len() && a[k] == x;
            assert((a + b)[k] == x);
        }
        if b.contains(x) {
            let k = choose|k: int| 0 <= k < b.len() && b[k] == x;
            assert((a + b)[k + a.len()] == x);
        }
    }
    assert((a + b).to_set() =~= a.to_set().union(b.to_set()));
}

/// A template read from the document `root`, listed under `key`, with the fallback name
/// and the schema's `required` field paths.
pub open spec fn template_is(
    t: MachineTemplate,
    root: YamlNode,
    key: Seq<char>,
    fallback_name: Seq<char>,
    required: Set<Seq<char>>,
) -> bool {
    &&& t.key@ == key
    &&& t.id@ == "template-"@ + slug_spec(key)
    &&& t.name@ == template_name(root, fallback_name)
    &&& opt_string(t.max_feed_rate) == text_at(root, seq!["machine"@, "max_feed_rate"@])
    &&& opt_string(t.spindle_rpm_min) == text_at(root, seq!["machine"@, "spindle_rpm_min"@])
    &&& opt_string(t.spindle_rpm_max) == text_at(root, seq!["machine"@, "spindle_rpm_max"@])
    &&& t.atc_slot_count == match integer_at(root, seq!["machine"@, "atc_slot_count"@]) {
        Some(v) => Some((if v < 0 {
            0
        } else if v > 255 {
            255
        } else {
            v
        }) as u8),
        None => None,
    }
    &&& t.line_numbering_increment == match integer_at(root, seq!["machine"@, "line_numbering_increment"@]) {
        Some(v) => Some(((if v < 0 {
            0
        } else {
            v
        }) % 65536) as u16),
        None => None,
    }
    &&& primitives_are(t.primitives, root)
    &&& strictly_sorted(texts(t.pending_required_fields@))
    &&& texts(t.pending_required_fields@).to_set() == pending_fields(root, required)
    &&& t.usable == (t.pending_required_fields@.len() == 0)
}

/// Reads a built-in machine template: its identity, the fields it supplies and the
/// schema-`required` fields it leaves unset. A document that did not parse is read
/// as `Null`, which supplies nothing.
pub fn read_machine_template(root: &YamlNode, key: &str, fallback_name: &str, required: &Vec<String>) -> (t:
    MachineTemplate)
    ensures
        template_is(t, *root, key@, fallback_name@, texts(required@).to_set()),
{
    let mut id = String::new();
    id.append("template-");
    let s = slug(key);
    id.append(s.as_str());

    let name_keys: Vec<&str> = vec!["name"];
    proof {
        assert(name_keys@.map_values(|k: &str| k@) =~= seq!["name"@]);
    }
    let name = match text_path(root, &name_keys) {
        Some(n) => {
            let trimmed = trim(n.as_str());
            if trimmed.unicode_len() > 0 {
                trimmed.to_string()
            } else {
                fallback_name.to_string()
            }
        },
        None => fallback_name.to_string(),
    };

    let feed_keys: Vec<&str> = vec!["machine", "max_feed_rate"];
    let min_keys: Vec<&str> = vec!["machine", "spindle_rpm_min"];
    let max_keys: Vec<&str> = vec!["machine", "spindle_rpm_max"];
    let atc_keys: Vec<&str> = vec!["machine", "atc_slot_count"];
    let x_keys: Vec<&str> = vec!["machine", "scaling", "x"];
    let y_keys: Vec<&str> = vec!["machine", "scaling", "y"];
    let line_keys: Vec<&str> = vec!["machine", "line_numbering_increment"];
    proof {
        assert(feed_keys@.map_values(|k: &str| k@) =~= seq!["machine"@, "max_feed_rate"@]);
        assert(min_keys@.map_values(|k: &str| k@) =~= seq!["machine"@, "spindle_rpm_min"@]);
        assert(max_keys@.map_values(|k: &str| k@) =~= seq!["machine"@, "spindle_rpm_max"@]);
        assert(atc_keys@.map_values(|k: &str| k@) =~= seq!["machine"@, "atc_slot_count"@]);
        assert(x_keys@.map_values(|k: &str| k@) =~= seq!["machine"@, "scaling"@, "x"@]);
        assert(y_keys@.map_values(|k: &str| k@) =~= seq!["machine"@, "scaling"@, "y"@]);
        assert(line_keys@.map_values(|k: &str| k@) =~= seq!["machine"@, "line_numbering_increment"@]);
    }
    let max_feed_rate = text_path(root, &feed_keys);
    let spindle_rpm_min = text_path(root, &min_keys);
    let spindle_rpm_max = text_path(root, &max_keys);
    let atc = integer_path(root, &atc_keys);
    let atc_slot_count: Option<u8> = match atc {
        Some(v) => Some(
            if v < 0 {
                0u8
            } else if v > 255 {
                255u8
            } else {
                v as u8
            },
        ),
        None => None,
    };
    let has_x = number_path(root, &x_keys);
    let has_y = number_path(root, &y_keys);
    let line = integer_path(root, &line_keys);
    let line_numbering_increment: Option<u16> = match line {
        Some(v) => {
            let m: i64 = if v < 0 {
                0
            } else {
                v
            };
            Some((m % 65536) as u16)
        },
        None => None,
    };

    let ghost req = texts(required@).to_set();
    let mut pending: Vec<String> = Vec::new();
    proof {
        assert(texts(pending@).to_set() =~= Set::<Seq<char>>::empty());
    }
    note_gap(&mut pending, required, max_feed_rate.is_none(), "machine.max_feed_rate");
    note_gap(&mut pending, required, spindle_rpm_min.is_none(), "machine.spindle_rpm_min");
    note_gap(&mut pending, required, spindle_rpm_max.is_none(), "machine.spindle_rpm_max");
    note_gap(&mut pending, required, atc.is_none(), "machine.atc_slot_count");
    note_gap(&mut pending, required, !has_x, "machine.scaling.x");
    note_gap(&mut pending, required, !has_y, "machine.scaling.y");
    note_gap(&mut pending, required, line.is_none(), "machine.line_numbering_increment");
    let ghost machine_gaps = machine_field_gaps(*root);
    proof {
        let g1 = gap(text_at(*root, seq!["machine"@, "max_feed_rate"@]) is None, "machine.max_feed_rate"@);
        let g2 = gap(text_at(*root, seq!["machine"@, "spindle_rpm_min"@]) is None, "machine.spindle_rpm_min"@);
        let g3 = gap(text_at(*root, seq!["machine"@, "spindle_rpm_max"@]) is None, "machine.spindle_rpm_max"@);
        let g4 = gap(integer_at(*root, seq!["machine"@, "atc_slot_count"@]) is None, "machine.atc_slot_count"@);
        let g5 = gap(!number_at(*root, seq!["machine"@, "scaling"@, "x"@]), "machine.scaling.x"@);
        let g6 = gap(!number_at(*root, seq!["machine"@, "scaling"@, "y"@]), "machine.scaling.y"@);
        let g7 = gap(
            integer_at(*root, seq!["machine"@, "line_numbering_increment"@]) is None,
            "machine.line_numbering_increment"@,
        );
        lemma_to_set_concat(g1, g2);
        lemma_to_set_concat(g1 + g2, g3);
        lemma_to_set_concat(g1 + g2 + g3, g4);
        lemma_to_set_concat(g1 + g2 + g3 + g4, g5);
        lemma_to_set_concat(g1 + g2 + g3 + g4 + g5, g6);
        lemma_to_set_concat(g1 + g2 + g3 + g4 + g5 + g6, g7);
        assert(texts(pending@).to_set() =~= machine_gaps.to_set().filter(|p: Seq<char>| req.contains(p)));
    }

    let names: Vec<&str> = vec![
        "initialise",
        "rapid_move",
        "linear_cut",
        "start_spindle",
        "stop_spindle",
        "drill",
        "peck_drill",
        "cut_arc",
        "cut_bezier",
        "change_tool",
        "conclude",
    ];
    let ghost all_names = names@.map_values(|k: &str| k@);
    proof {
        assert(all_names =~= needed_primitives());
        assert(all_names.take(0) =~= Seq::<Seq<char>>::empty());
    }
    let mut i: usize = 0;
    while i < names.len()
        invariant
            i <= names@.len(),
            all_names == names@.map_values(|k: &str| k@),
            req == texts(required@).to_set(),
            strictly_sorted(texts(pending@)),
            texts(pending@).to_set() == (machine_gaps + primitive_gaps(*root, all_names.take(i as int))).to_set().filter(
                |p: Seq<char>| req.contains(p),
            ),
        decreases names@.len() - i,
    {
        let keys: Vec<&str> = vec!["primitives", names[i]];
        proof {
            assert(keys@.map_values(|k: &str| k@) =~= seq!["primitives"@, names@[i as int]@]);
        }
        let absent = lookup_path(root, &keys).is_none();
        let mut path = String::new();
        path.append("primitives.");
        path.append(names[i]);
        let ghost before = machine_gaps + primitive_gaps(*root, all_names.take(i as int));
        note_gap(&mut pending, required, absent, path.as_str());
        proof {
            let g = gap(absent, path@);
            assert(all_names.take(i + 1).drop_last() =~= all_names.take(i as int));
            assert(all_names.take(i + 1).last() == names@[i as int]@);
            assert(machine_gaps + primitive_gaps(*root, all_names.take(i + 1)) =~= before + g);
            lemma_to_set_concat(before, g);
            assert(texts(pending@).to_set() =~= (before + g).to_set().filter(|p: Seq<char>| req.contains(p)));
        }
        i += 1;
    }
    proof {
        assert(all_names.take(names@.len() as int) =~= all_names);
    }
    let usable = pending.len() == 0;
    MachineTemplate {
        key: key.to_string(),
        id,
        name,
        max_feed_rate,
        spindle_rpm_min,
        spindle_rpm_max,
        atc_slot_count,
        line_numbering_increment,
        primitives: read_primitives(root),
        pending_required_fields: pending,
        usable,
    }
}

// ---------------------------------------------------------------------------
// Imported machine profiles
// ---------------------------------------------------------------------------

/// A machine profile imported from a document, as far as it is read here: the rate
/// texts go to the unit parser, the axis scaling factors are read by the caller (they
/// are floating point).
pub struct MachineImport {
    /// `import-` followed by the slug of the source file's stem.
    pub id: String,
    /// The document's `name`, or `Imported ` and the stem.
    pub name: String,
    /// The feed-rate text, when the document has one.
    pub max_feed_rate: Option<String>,
    pub spindle_rpm_min: String,
    pub spindle_rpm_max: String,
    /// The tool-changer slot count, kept as a `u8` keeps it (its low eight bits).
    pub atc_slot_count: u8,
    /// The line-numbering increment: `machine.line_numbering_increment`, else
    /// `machine.line_numbering.increment`, else 10; a negative one counts as 0, and it is
    /// kept modulo 65536.
    pub line_numbering_increment: u16,
    pub primitives: MachinePrimitives,
}

/// Whether a document has what an imported profile cannot do without: a `machine`
/// section with spindle speed texts and an integer tool-changer slot count.
pub open spec fn importable(root: YamlNode) -> bool {
    &&& node_get(root, "machine"@) is Some
    &&& text_at(root, seq!["machine"@, "spindle_rpm_min"@]) is Some
    &&& text_at(root, seq!["machine"@, "spindle_rpm_max"@]) is Some
    &&& integer_at(root, seq!["machine"@, "atc_slot_count"@]) is Some
}

/// The line-numbering increment an imported profile gets.
pub open spec fn import_increment(root: YamlNode) -> u16 {
    let v = match integer_at(root, seq!["machine"@, "line_numbering_increment"@]) {
        Some(v) => v,
        None => match integer_at(root, seq!["machine"@, "line_numbering"@, "increment"@]) {
            Some(v) => v,
            None => 10,
        },
    };
    ((if v < 0 {
        0
    } else {
        v
    }) % 65536) as u16
}

/// An imported profile read from `root`, its source file's stem being `id_stem`.
pub open spec fn import_is(m: MachineImport, root: YamlNode, id_stem: Seq<char>) -> bool {
    &&& m.id@ == "import-"@ + slug_spec(id_stem)
    &&& m.name@ == match text_at(root, seq!["name"@]) {
        Some(t) => t,
        None => "Imported "@ + id_stem,
    }
    &&& opt_string(m.max_feed_rate) == text_at(root, seq!["machine"@, "max_feed_rate"@])
    &&& Some(m.spindle_rpm_min@) == text_at(root, seq!["machine"@, "spindle_rpm_min"@])
    &&& Some(m.spindle_rpm_max@) == text_at(root, seq!["machine"@, "spindle_rpm_max"@])
    &&& integer_at(root, seq!["machine"@, "atc_slot_count"@]) matches Some(v) && m.atc_slot_count == v as u8
    &&& m.line_numbering_increment == import_increment(root)
    &&& primitives_are(m.primitives, root)
}

/// Reads an imported machine profile whose source file's stem is `id_stem`; `None`
/// when the document lacks what a profile cannot do without.
pub fn machine_profile_from(root: &YamlNode, id_stem: &str) -> (r: Option<MachineImport>)
    ensures
        r is Some <==> importable(*root),
        r matches Some(m) ==> import_is(m, *root, id_stem@),
{
    let machine_keys: Vec<&str> = vec!["machine"];
    let feed_keys: Vec<&str> = vec!["machine", "max_feed_rate"];
    let min_keys: Vec<&str> = vec!["machine", "spindle_rpm_min"];
    let max_keys: Vec<&str> = vec!["machine", "spindle_rpm_max"];
    let atc_keys: Vec<&str> = vec!["machine", "atc_slot_count"];
    let line_keys: Vec<&str> = vec!["machine", "line_numbering_increment"];
    let nested_keys: Vec<&str> = vec!["machine", "line_numbering", "increment"];
    let name_keys: Vec<&str> = vec!["name"];
    proof {
        assert(feed_keys@.map_values(|k: &str| k@) =~= seq!["machine"@, "max_feed_rate"@]);
        assert(min_keys@.map_values(|k: &str| k@) =~= seq!["machine"@, "spindle_rpm_min"@]);
        assert(max_keys@.map_values(|k: &str| k@) =~= seq!["machine"@, "spindle_rpm_max"@]);
        assert(atc_keys@.map_values(|k: &str| k@) =~= seq!["machine"@, "atc_slot_count"@]);
        assert(line_keys@.map_values(|k: &str| k@) =~= seq!["machine"@, "line_numbering_increment"@]);
        assert(nested_keys@.map_values(|k: &str| k@) =~= seq!["machine"@, "line_numbering"@, "increment"@]);
        assert(name_keys@.map_values(|k: &str| k@) =~= seq!["name"@]);
        let one = seq!["machine"@];
        assert(one.drop_last() =~= Seq::<Seq<char>>::empty());
    }
    let machine = lookup(root, "machine");
    if machine.is_none() {
        return None;
    }
    let spindle_rpm_min = match text_path(root, &min_keys) {
        Some(t) => t,
        None => {
            return None;
        },
    };
    let spindle_rpm_max = match text_path(root, &max_keys) {
        Some(t) => t,
        None => {
            return None;
        },
    };
    let atc = match integer_path(root, &atc_keys) {
        Some(v) => v,
        None => {
            return None;
        },
    };
    let atc_slot_count = atc as u8;
    let raw_increment: i64 = match integer_path(root, &line_keys) {
        Some(v) => v,
        None => match integer_path(root, &nested_keys) {
            Some(v) => v,
            None => 10,
        },
    };
    let m: i64 = if raw_increment < 0 {
        0
    } else {
        raw_increment
    };
    let line_numbering_increment = (m % 65536) as u16;

    let mut id = String::new();
    id.append("import-");
    let s = slug(id_stem);
    id.append(s.as_str());
    let name = match text_path(root, &name_keys) {
        Some(n) => n,
        None => {
            let mut n = String::new();
            n.append("Imported ");
            n.append(id_stem);
            n
        },
    };
    Some(
        MachineImport {
            id,
            name,
            max_feed_rate: text_path(root, &feed_keys),
            spindle_rpm_min,
            spindle_rpm_max,
            atc_slot_count,
            line_numbering_increment,
            primitives: read_primitives(root),
        },
    )
}

/// The stem of a path's final component (`Path::file_stem`) as text. For a portable
/// path it is the stem of the name `Path::file_name` gives (the part before its final
/// `.`, or the whole name when it has no `.` other than a leading one), and none when
/// there is no such name. Which other characters separate components, or start a
/// drive or share prefix, depends on the platform, so nothing is stated for other
/// paths.
#[verifier::external_body]
fn path_file_stem(path: &str) -> (r: Option<String>)
    ensures
        portable_path(path@) ==> opt_string(r) == match file_name_spec(path@) {
            Some(n) => Some(stem_of_name(n)),
            None => None,
        },
{
    std::path::Path::new(path).file_stem().and_then(|v| v.to_str()).map(|s| s.to_string())
}

/// The stem an imported profile is named after: the stem of the source file's name,
/// or `machine` when the path names no file.
pub open spec fn source_stem(path: Seq<char>) -> Seq<char> {
    match file_name_spec(path) {
        Some(n) => stem_of_name(n),
        None => "machine"@,
    }
}

/// Reads a machine profile imported from the file at `source_path`: as
/// `machine_profile_from` with the stem of the file's name, or `machine` when it has
/// none.
pub fn read_machine_profile(root: &YamlNode, source_path: &str) -> (r: Option<MachineImport>)
    ensures
        r is Some <==> importable(*root),
        portable_path(source_path@) ==> (r matches Some(m) ==> import_is(m, *root, source_stem(source_path@))),
        r matches Some(m) ==> exists|stem: Seq<char>| import_is(m, *root, stem),
{
    let stem = match path_file_stem(source_path) {
        Some(s) => s,
        None => "machine".to_string(),
    };
    let r = machine_profile_from(root, stem.as_str());
    proof {
        if r is Some {
            assert(import_is(r->0, *root, stem@));
        }
    }
    r
}

// ---------------------------------------------------------------------------
// Parsing
// ---------------------------------------------------------------------------

/// `serde_yaml::Value`, carried unopened between the parser and its conversion.
#[verifier::external_type_specification]
#[verifier::external_body]
pub struct ExYamlValue(serde_yaml::Value);

/// The tree serde_yaml parses a text into (`serde_yaml::from_str` into a `Value`,
/// converted node for node); `None` when the text does not parse.
pub uninterp spec fn yaml_tree(text: Seq<char>) -> Option<YamlNode>;

/// A parsed value as a tree, node for node: a number carries its `as_i64`, a tag is
/// kept around its value. Only the parser below calls it.
#[verifier::external_body]
fn yaml_node_of(value: &serde_yaml::Value) -> YamlNode {
    match value {
        serde_yaml::Value::Null => YamlNode::Null,
        serde_yaml::Value::Bool(b) => YamlNode::Bool(*b),
        serde_yaml::Value::Number(n) => YamlNode::Number(n.as_i64()),
        serde_yaml::Value::String(s) => YamlNode::Text(s.clone()),
        serde_yaml::Value::Sequence(items) => YamlNode::Sequence(items.iter().map(yaml_node_of).collect()),
        serde_yaml::Value::Mapping(map) => YamlNode::Mapping(
            map.iter().map(|(k, v)| (yaml_node_of(k), yaml_node_of(v))).collect(),
        ),
        serde_yaml::Value::Tagged(tagged) => YamlNode::Tagged(Box::new(yaml_node_of(&tagged.value))),
    }
}

/// Parses YAML text (`serde_yaml::from_str`) into a tree; `None` when it does not
/// parse. The result is named by the text.
#[verifier::external_body]
fn parse_yaml(text: &str) -> (r: Option<YamlNode>)
    ensures
        r == yaml_tree(text@),
{
    serde_yaml::from_str::<serde_yaml::Value>(text).ok().map(|v| yaml_node_of(&v))
}

/// A document's tree, an unparsable text reading as an empty document.
pub open spec fn document_or_null(text: Seq<char>) -> YamlNode {
    match yaml_tree(text) {
        Some(n) => n,
        None => YamlNode::Null,
    }
}

/// The dotted paths of every field the schema text requires, each once in increasing
/// order; none when the text does not parse.
pub fn required_paths_text(schema_text: &str) -> (r: Vec<String>)
    ensures
        strictly_sorted(texts(r@)),
        texts(r@).to_set() == match yaml_tree(schema_text@) {
            Some(n) => required_paths(n, None),
            None => Set::empty(),
        },
{
    let mut out: Vec<String> = Vec::new();
    proof {
        assert(texts(out@).to_set() =~= Set::<Seq<char>>::empty());
    }
    match parse_yaml(schema_text) {
        Some(schema) => {
            collect_required_paths(&schema, None, &mut out);
            proof {
                assert(Set::<Seq<char>>::empty().union(required_paths(schema, None)) =~= required_paths(schema, None));
            }
        },
        None => {},
    }
    out
}

/// Reads a built-in machine template from its text; a text that does not parse reads
/// as an empty document, so every required field stays pending.
pub fn read_machine_template_text(text: &str, key: &str, fallback_name: &str, required: &Vec<String>) -> (t:
    MachineTemplate)
    ensures
        template_is(t, document_or_null(text@), key@, fallback_name@, texts(required@).to_set()),
{
    let root = match parse_yaml(text) {
        Some(n) => n,
        None => YamlNode::Null,
    };
    read_machine_template(&root, key, fallback_name, required)
}

/// Reads a machine profile imported from the text of the file at `source_path`;
/// `None` when the text does not parse or lacks what a profile cannot do without.
pub fn read_machine_profile_text(text: &str, source_path: &str) -> (r: Option<MachineImport>)
    ensures
        match yaml_tree(text@) {
            None => r is None,
            Some(root) => {
                &&& (r is Some <==> importable(root))
                &&& portable_path(source_path@) ==> (r matches Some(m) ==> import_is(m, root, source_stem(source_path@)))
                &&& r matches Some(m) ==> exists|stem: Seq<char>| import_is(m, root, stem)
            },
        },
{
    match parse_yaml(text) {
        Some(root) => read_machine_profile(&root, source_path),
        None => None,
    }
}

/// A template leaves pending only fields the schema requires, and only among those it
/// checks: the machine fields and the needed primitives.
pub proof fn lemma_template_pending_is_required(root: YamlNode, required: Set<Seq<char>>)
    ensures
        pending_fields(root, required).subset_of(required),
        pending_fields(root, required).subset_of(
            (machine_field_gaps(root) + primitive_gaps(root, needed_primitives())).to_set(),
        ),
{
}

} // verus!
