//! Stackless execution of descendant-only JSONPath queries.
//!
//! A query `$..a..b` is compiled into a list of labels. The automaton walks
//! the structural events of the document in one forward pass, keeping only a
//! depth counter, a current matcher state and a small register file, and
//! counts how many times the full label chain matches.

use crate::classify::classify_structural_characters;
use crate::classify::event_index;
use crate::classify::lemma_structural_events_len;
use crate::classify::lemma_structural_events_valid;
use crate::classify::structural_events;
use crate::classify::StructuralEvent;
use crate::sequences::match_at;
use crate::sequences::matches_prefix_at;
use vstd::pervasive::unreached;
use vstd::pervasive::VecAdditionalExecFns;
use vstd::prelude::*;

verus! {

/// A label as it appears in the document: surrounded by quotes.
pub open spec fn quoted(lab: Seq<u8>) -> Seq<u8> {
    seq![34u8] + lab + seq![34u8]
}

/// A JSON object key sought by a query, without its surrounding quotes,
/// together with the quoted form compared against the raw document.
pub struct Label {
    bytes: Vec<u8>,
    bytes_with_quotes: Vec<u8>,
}

impl Label {
    /// The label's bytes, without quotes.
    pub closed spec fn bytes_spec(self) -> Seq<u8> {
        self.bytes@
    }

    /// The label's bytes with the surrounding quotes.
    pub closed spec fn quoted_spec(self) -> Seq<u8> {
        self.bytes_with_quotes@
    }

    /// The quoted form is the bytes in quotes, and the bytes hold neither a
    /// quote nor a backslash.
    pub open spec fn wf(self) -> bool {
        &&& self.quoted_spec() == quoted(self.bytes_spec())
        &&& forall|i: int| 0 <= i < self.bytes_spec().len()
            ==> self.bytes_spec()[i] != 34u8 && self.bytes_spec()[i] != 92u8
    }

    /// Make a label from its bytes. The query parser promises that a label
    /// holds neither a quote nor a backslash.
    pub fn new(bytes: Vec<u8>) -> (r: Label)
        requires
            forall|i: int| 0 <= i < bytes@.len() ==> bytes@[i] != 34u8 && bytes@[i] != 92u8,
        ensures
            r.wf(),
            r.bytes_spec() == bytes@,
    {
        let mut q: Vec<u8> = Vec::new();
        q.push(34u8);
        let mut i: usize = 0;
        while i < bytes.len()
            invariant
                i <= bytes@.len(),
                q@ == seq![34u8] + bytes@.take(i as int),
            decreases bytes@.len() - i,
        {
            q.push(bytes[i]);
            proof {
                assert(seq![34u8] + bytes@.take(i as int) + seq![bytes@[i as int]]
                    =~= seq![34u8] + bytes@.take(i + 1));
            }
            i += 1;
        }
        q.push(34u8);
        proof {
            assert(bytes@.take(bytes@.len() as int) =~= bytes@);
            assert(q@ =~= quoted(bytes@));
        }
        Label { bytes, bytes_with_quotes: q }
    }

    /// The label's length in bytes, without quotes.
    pub fn len(&self) -> (n: usize)
        ensures
            n == self.bytes_spec().len(),
    {
        self.bytes.len()
    }

    /// The label's bytes, without quotes.
    pub fn bytes(&self) -> (r: &Vec<u8>)
        ensures
            r@ == self.bytes_spec(),
    {
        &self.bytes
    }

    /// The label's bytes with the surrounding quotes.
    pub fn bytes_with_quotes(&self) -> (r: &Vec<u8>)
        ensures
            r@ == self.quoted_spec(),
    {
        &self.bytes_with_quotes
    }
}

/// A node of a JSONPath query tree: a root, a descendant selector, or a
/// label with the rest of the chain.
pub enum JsonPathQueryNode {
    Root(Option<Box<JsonPathQueryNode>>),
    Descendant(Box<JsonPathQueryNode>),
    Label(Label, Option<Box<JsonPathQueryNode>>),
}

/// The chain under a root consists of descendant nodes, each holding a
/// well-formed label.
pub open spec fn is_descendant_chain(node: Option<Box<JsonPathQueryNode>>) -> bool
    decreases node,
{
    match node {
        None => true,
        Some(n) => match *n {
            JsonPathQueryNode::Descendant(inner) => match *inner {
                JsonPathQueryNode::Label(lab, next) => lab.wf() && is_descendant_chain(next),
                _ => false,
            },
            _ => false,
        },
    }
}

/// The labels of a descendant chain, in order.
pub open spec fn chain_labels(node: Option<Box<JsonPathQueryNode>>) -> Seq<Seq<u8>>
    decreases node,
{
    match node {
        None => Seq::empty(),
        Some(n) => match *n {
            JsonPathQueryNode::Descendant(inner) => match *inner {
                JsonPathQueryNode::Label(lab, next) => seq![lab.bytes_spec()]
                    + chain_labels(next),
                _ => Seq::empty(),
            },
            _ => Seq::empty(),
        },
    }
}

/// A JSONPath query: a root node over a chain of descendant-label nodes.
pub struct JsonPathQuery {
    root: JsonPathQueryNode,
}

impl JsonPathQuery {
    /// The root node.
    pub closed spec fn root_spec(self) -> JsonPathQueryNode {
        self.root
    }

    /// The chain under the root, or nothing when the root is not a root
    /// node.
    pub open spec fn chain_spec(self) -> Option<Box<JsonPathQueryNode>> {
        match self.root_spec() {
            JsonPathQueryNode::Root(child) => child,
            _ => None,
        }
    }

    /// The query is a root over a descendant-label chain.
    pub open spec fn wf(self) -> bool {
        self.root_spec() is Root && is_descendant_chain(self.chain_spec())
    }

    /// The labels the query seeks, in order.
    pub open spec fn labels_spec(self) -> Seq<Seq<u8>> {
        chain_labels(self.chain_spec())
    }

    /// Wrap a root node into a query.
    pub fn new(root: JsonPathQueryNode) -> (r: JsonPathQuery)
        ensures
            r.root_spec() == root,
    {
        JsonPathQuery { root }
    }

    /// The root node.
    pub fn root(&self) -> (r: &JsonPathQueryNode)
        ensures
            *r == self.root_spec(),
    {
        &self.root
    }
}

fn chain_to_labels<'a>(node: &'a Option<Box<JsonPathQueryNode>>) -> (r: Vec<&'a Label>)
    requires
        is_descendant_chain(*node),
    ensures
        r@.len() == chain_labels(*node).len(),
        forall|i: int| 0 <= i < r@.len()
            ==> (#[trigger] r@[i]).wf() && r@[i].bytes_spec() == chain_labels(*node)[i],
    decreases *node,
{
    match node {
        None => Vec::new(),
        Some(boxed) => match &**boxed {
            JsonPathQueryNode::Descendant(inner) => match &**inner {
                JsonPathQueryNode::Label(lab, next) => {
                    let mut rest = chain_to_labels(next);
                    rest.insert(0, lab);
                    rest
                },
                _ => unreached(),
            },
            _ => unreached(),
        },
    }
}

/// Walk a query tree and collect its labels, in order. The query parser
/// promises a root over a descendant-label chain.
pub fn query_to_descendant_pattern_labels(query: &JsonPathQuery) -> (r: Vec<&Label>)
    requires
        query.wf(),
    ensures
        r@.len() == query.labels_spec().len(),
        forall|i: int| 0 <= i < r@.len()
            ==> (#[trigger] r@[i]).wf() && r@[i].bytes_spec() == query.labels_spec()[i],
{
    match query.root() {
        JsonPathQueryNode::Root(child) => chain_to_labels(child),
        _ => unreached(),
    }
}

/// The views of a list of labels.
pub open spec fn label_views(ls: Seq<&Label>) -> Seq<Seq<u8>> {
    Seq::new(ls.len(), |i: int| ls[i].bytes_spec())
}

/// Stackless runner for a fixed query: the compiled list of labels. A runner
/// is immutable and may be run on any number of inputs.
pub struct StacklessRunner<'a> {
    labels: Vec<&'a Label>,
}

impl<'a> StacklessRunner<'a> {
    /// The labels the runner seeks, in order.
    pub closed spec fn labels_spec(self) -> Seq<Seq<u8>> {
        label_views(self.labels@)
    }

    /// Between 1 and 256 labels, each well formed.
    pub closed spec fn wf(self) -> bool {
        &&& 1 <= self.labels@.len() <= 256
        &&& forall|i: int| 0 <= i < self.labels@.len() ==> (#[trigger] self.labels@[i]).wf()
    }

    /// Compile a query into a runner, in time proportional to the query's
    /// length. The caller promises a descendant-only query of 1 to 256
    /// labels.
    pub fn compile_query(query: &'a JsonPathQuery) -> (r: StacklessRunner<'a>)
        requires
            query.wf(),
            1 <= query.labels_spec().len() <= 256,
        ensures
            r.wf(),
            r.labels_spec() == query.labels_spec(),
    {
        let labels = query_to_descendant_pattern_labels(query);
        let r = StacklessRunner { labels };
        proof {
            assert(r.labels_spec() =~= query.labels_spec());
        }
        r
    }

    /// Count the matches of the query over `input`, in one forward pass.
    pub fn count(&self, input: &[u8]) -> (r: CountResult)
        requires
            self.wf(),
        ensures
            r.count == automaton_count(self.labels_spec(), input@),
    {
        let count = descendant_only_automaton(&self.labels, input);
        CountResult { count }
    }
}

/// The number of matches a run observed.
pub struct CountResult {
    pub count: usize,
}

/// The matcher register file: the nesting depth, the 1-based index of the
/// label sought next, the depth at which each earlier label was matched, and
/// the number of full matches seen so far.
pub struct MatcherState {
    pub depth: int,
    pub state: int,
    pub regs: Seq<int>,
    pub count: int,
}

/// The state before any event: depth 0, seeking the first label, no matches.
pub open spec fn matcher_init() -> MatcherState {
    MatcherState { depth: 0, state: 1, regs: Seq::new(256, |i: int| 0), count: 0 }
}

/// The position of the nearest quote at or before position `j` of the
/// document, or -1 when there is none.
pub open spec fn scan_quote_left(doc: Seq<u8>, j: int) -> int
    decreases j + 1,
{
    if j < 0 {
        -1
    } else if doc[j] == 34u8 {
        j
    } else {
        scan_quote_left(doc, j - 1)
    }
}

/// A colon event at position `i` attempts a match: the next event opens a
/// deeper value, or the last label is sought and any value counts.
pub open spec fn colon_triggers(
    labels: Seq<Seq<u8>>,
    events: Seq<StructuralEvent>,
    st: MatcherState,
    i: int,
) -> bool {
    (i + 1 < events.len() && events[i + 1] is Opening) || st.state == labels.len()
}

/// The key of the colon at `idx` is `lab`: the nearest quote left of the
/// colon closes the key, and the quoted label ends at that quote.
pub open spec fn key_match_at(doc: Seq<u8>, lab: Seq<u8>, idx: int) -> bool {
    let cq = scan_quote_left(doc, idx - 1);
    &&& idx >= lab.len() + 2
    &&& cq >= lab.len() + 1
    &&& match_at(doc, quoted(lab), cq - lab.len() - 1)
}

/// The key of the colon at `idx` is the label the automaton seeks.
pub open spec fn colon_key_match(
    labels: Seq<Seq<u8>>,
    doc: Seq<u8>,
    st: MatcherState,
    idx: int,
) -> bool {
    key_match_at(doc, labels[st.state - 1], idx)
}

/// One transition of the automaton on event `i`. An opening deepens; a
/// closing shallows and retracts the state when the depth leaves the context
/// of the last matched label; a colon that attempts a match and finds the
/// sought key either counts a full match or advances the state and records
/// the depth. The depth saturates at 0 and the state at 1, so that even a
/// malformed document drives the automaton safely.
pub open spec fn matcher_step(
    labels: Seq<Seq<u8>>,
    doc: Seq<u8>,
    events: Seq<StructuralEvent>,
    st: MatcherState,
    i: int,
) -> MatcherState {
    match events[i] {
        StructuralEvent::Opening(_) => MatcherState { depth: st.depth + 1, ..st },
        StructuralEvent::Closing(_) => {
            let d = if st.depth > 0 { st.depth - 1 } else { 0 };
            if st.state > 1 && d <= st.regs[st.state - 1] {
                MatcherState { depth: d, state: st.state - 1, ..st }
            } else {
                MatcherState { depth: d, ..st }
            }
        },
        StructuralEvent::Colon(idx) => {
            if colon_triggers(labels, events, st, i) && colon_key_match(
                labels,
                doc,
                st,
                idx as int,
            ) {
                if st.state == labels.len() {
                    MatcherState { count: st.count + 1, ..st }
                } else {
                    MatcherState {
                        state: st.state + 1,
                        regs: st.regs.update(st.state, st.depth),
                        ..st
                    }
                }
            } else {
                st
            }
        },
    }
}

/// The state after the first `n` events.
pub open spec fn matcher_run(
    labels: Seq<Seq<u8>>,
    doc: Seq<u8>,
    events: Seq<StructuralEvent>,
    n: int,
) -> MatcherState
    decreases n,
{
    if n <= 0 {
        matcher_init()
    } else {
        matcher_step(labels, doc, events, matcher_run(labels, doc, events, n - 1), n - 1)
    }
}

/// The count of the automaton over the whole document: the state after all
/// structural events.
pub open spec fn automaton_count(labels: Seq<Seq<u8>>, doc: Seq<u8>) -> int {
    let events = structural_events(doc, doc.len() as int);
    matcher_run(labels, doc, events, events.len() as int).count
}

/// Bounds that every reachable state satisfies: the state stays between 1
/// and the number of labels, and depth and count never exceed the number of
/// events consumed.
pub proof fn lemma_matcher_run_wf(
    labels: Seq<Seq<u8>>,
    doc: Seq<u8>,
    events: Seq<StructuralEvent>,
    n: int,
)
    requires
        0 <= n,
        1 <= labels.len() <= 256,
    ensures
        ({
            let st = matcher_run(labels, doc, events, n);
            &&& 1 <= st.state <= labels.len()
            &&& 0 <= st.depth <= n
            &&& 0 <= st.count <= n
            &&& st.regs.len() == 256
        }),
    decreases n,
{
    if n > 0 {
        lemma_matcher_run_wf(labels, doc, events, n - 1);
        let prev = matcher_run(labels, doc, events, n - 1);
        let st = matcher_run(labels, doc, events, n);
        assert(st == matcher_step(labels, doc, events, prev, n - 1));
    }
}

/// The number of colon events among the first `n` whose key is `lab`.
pub open spec fn matching_colon_count(
    doc: Seq<u8>,
    events: Seq<StructuralEvent>,
    lab: Seq<u8>,
    n: int,
) -> int
    decreases n,
{
    if n <= 0 {
        0
    } else {
        matching_colon_count(doc, events, lab, n - 1) + if events[n - 1] is Colon
            && key_match_at(doc, lab, event_index(events[n - 1])) {
            1int
        } else {
            0int
        }
    }
}

/// For a query of a single label every occurrence of the key counts,
/// wherever it nests: after any prefix of the events the automaton's count
/// equals the number of colon events whose key is the label, and the matcher
/// state never moves.
pub proof fn lemma_single_label_count(
    labels: Seq<Seq<u8>>,
    doc: Seq<u8>,
    events: Seq<StructuralEvent>,
    n: int,
)
    requires
        labels.len() == 1,
        0 <= n,
    ensures
        ({
            let st = matcher_run(labels, doc, events, n);
            &&& st.state == 1
            &&& st.count == matching_colon_count(doc, events, labels[0], n)
        }),
    decreases n,
{
    if n > 0 {
        lemma_single_label_count(labels, doc, events, n - 1);
        let prev = matcher_run(labels, doc, events, n - 1);
        let st = matcher_run(labels, doc, events, n);
        assert(st == matcher_step(labels, doc, events, prev, n - 1));
        if events[n - 1] is Colon {
            assert(colon_triggers(labels, events, prev, n - 1));
        }
    }
}

/// Run the descendant automaton over the structural events of `bytes` and
/// count the full matches of the label chain.
pub fn descendant_only_automaton(labels: &Vec<&Label>, bytes: &[u8]) -> (count: usize)
    requires
        1 <= labels@.len() <= 256,
        forall|i: int| 0 <= i < labels@.len() ==> (#[trigger] labels@[i]).wf(),
    ensures
        count as int == automaton_count(label_views(labels@), bytes@),
{
    let ghost labs = label_views(labels@);
    let ghost doc = bytes@;
    let n_bytes = bytes.len();
    let events = classify_structural_characters(bytes);
    let ghost evs = events@;
    proof {
        lemma_structural_events_len(doc, doc.len() as int);
        lemma_structural_events_valid(doc, doc.len() as int);
    }
    let n_events = events.len();
    let mut depth: usize = 0;
    let mut state: usize = 1;
    let mut count: usize = 0;
    let mut regs: Vec<usize> = Vec::new();
    let mut z: usize = 0;
    while z < 256
        invariant
            z <= 256,
            regs@.len() == z,
            forall|m: int| 0 <= m < z ==> regs@[m] == 0,
        decreases 256 - z,
    {
        regs.push(0);
        z += 1;
    }
    let last_state = labels.len();
    let mut i: usize = 0;
    while i < n_events
        invariant
            i <= n_events,
            n_events == evs.len(),
            evs == events@,
            doc == bytes@,
            labs == label_views(labels@),
            1 <= labels@.len() <= 256,
            forall|m: int| 0 <= m < labels@.len() ==> (#[trigger] labels@[m]).wf(),
            last_state == labels@.len(),
            evs == structural_events(doc, doc.len() as int),
            evs.len() <= doc.len(),
            forall|k: int| 0 <= k < evs.len() ==> {
                let e = #[trigger] evs[k];
                &&& 0 <= event_index(e) < doc.len()
                &&& e == crate::classify::event_at(doc, event_index(e))
            },
            ({
                let st = matcher_run(labs, doc, evs, i as int);
                &&& depth == st.depth
                &&& state == st.state
                &&& count == st.count
                &&& regs@.len() == 256
                &&& forall|m: int| 0 <= m < 256 ==> regs@[m] == st.regs[m]
            }),
        decreases n_events - i,
    {
        let ghost st = matcher_run(labs, doc, evs, i as int);
        proof {
            lemma_matcher_run_wf(labs, doc, evs, i as int);
            assert(evs[i as int] == crate::classify::event_at(doc, event_index(evs[i as int])));
        }
        let ev = events[i];
        match ev {
            StructuralEvent::Opening(_) => {
                depth += 1;
            },
            StructuralEvent::Closing(_) => {
                if depth > 0 {
                    depth -= 1;
                }
                if state > 1 && depth <= regs[state - 1] {
                    state -= 1;
                }
            },
            StructuralEvent::Colon(idx) => {
                let fires = state == last_state || (i + 1 < n_events && matches!(
                    events[i + 1],
                    StructuralEvent::Opening(_),
                ));
                proof {
                    assert(fires == colon_triggers(labs, evs, st, i as int));
                    assert(labs[state - 1] == labels@[state - 1].bytes_spec());
                }
                let ghost km = colon_key_match(labs, doc, st, idx as int);
                if fires {
                    let lab = labels[state - 1];
                    let len = lab.len();
                    if idx >= 2 && idx - 2 >= len {
                        let mut cq = idx - 1;
                        while bytes[cq] != 34u8 && cq > 0
                            invariant
                                cq <= idx - 1 < doc.len(),
                                doc == bytes@,
                                scan_quote_left(doc, idx - 1) == scan_quote_left(doc, cq as int),
                            decreases cq,
                        {
                            cq -= 1;
                        }
                        if bytes[cq] == 34u8 {
                            proof {
                                assert(scan_quote_left(doc, cq as int) == cq);
                            }
                            if cq >= 1 && cq - 1 >= len {
                                let opening = cq - len - 1;
                                let qlab = lab.bytes_with_quotes();
                                proof {
                                    assert(qlab@ == quoted(lab.bytes_spec()));
                                    assert(qlab@.len() == len + 2);
                                }
                                let is_match = matches_prefix_at(qlab.as_slice(), bytes, opening);
                                proof {
                                    assert(km == is_match);
                                }
                                if is_match {
                                    if state == last_state {
                                        count += 1;
                                    } else {
                                        state += 1;
                                        regs.set(state - 1, depth);
                                    }
                                }
                            } else {
                                proof {
                                    assert(!km);
                                }
                            }
                        } else {
                            proof {
                                assert(cq == 0 && doc[0] != 34u8);
                                assert(scan_quote_left(doc, -1) == -1);
                                assert(scan_quote_left(doc, 0) == -1);
                                assert(!km);
                            }
                        }
                    } else {
                        proof {
                            assert(!km);
                        }
                    }
                }
            },
        }
        proof {
            let st1 = matcher_run(labs, doc, evs, i + 1);
            assert(st1 == matcher_step(labs, doc, evs, st, i as int));
            assert(depth == st1.depth);
            assert(state == st1.state);
            assert(count == st1.count);
            assert(forall|m: int| 0 <= m < 256 ==> regs@[m] == st1.regs[m]);
        }
        i += 1;
    }
    count
}

} // verus!
