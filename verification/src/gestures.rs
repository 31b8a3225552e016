//! Learning the gestures of the CurseForge author dashboard.
//!
//! Its public upload interface can only drop a file; its dashboard can also
//! create a project or remove a file, through an undocumented internal
//! interface. The application watches the author make the gesture once,
//! notes its exact form, and can then make it again. This module holds what
//! is decided without the network: recognising a useful call, generalising
//! its address, filling it back in, and keeping the latest form of each.

use crate::text::{
    append_chars, chars_of, contains, decimal, digit, ends, ends_with, has_text, join_chars,
    join_with, replace_all, replace_chars, same_chars, signed_decimal, signed_text, split_chars, split_on,
    text_of, uppercase, uppercased, is_digit, starts, digit_char,
};
use crate::json::Json;
use vstd::prelude::*;

verus! {

/// A call observed in the page.
#[derive(Debug, Clone)]
pub struct Observed {
    pub method: String,
    pub url: String,
    pub status: i64,
    pub sent: String,
}

/// A gesture kept, ready to be made again.
#[derive(Debug, Clone, PartialEq)]
pub struct Gesture {
    pub method: String,
    /// Address where identifiers gave way to markers.
    pub pattern: String,
    /// Body sent, as is: it is the template for the next time.
    pub body: String,
    /// What the server answered that day.
    pub status: i64,
}

pub struct ObservedView {
    pub method: Seq<char>,
    pub url: Seq<char>,
    pub status: i64,
    pub sent: Seq<char>,
}

pub struct GestureView {
    pub method: Seq<char>,
    pub pattern: Seq<char>,
    pub body: Seq<char>,
    pub status: i64,
}

impl View for Observed {
    type V = ObservedView;

    open spec fn view(&self) -> ObservedView {
        ObservedView { method: self.method@, url: self.url@, status: self.status, sent: self.sent@ }
    }
}

impl View for Gesture {
    type V = GestureView;

    open spec fn view(&self) -> GestureView {
        GestureView {
            method: self.method@,
            pattern: self.pattern@,
            body: self.body@,
            status: self.status,
        }
    }
}

pub open spec fn writing_methods() -> Seq<Seq<char>> {
    seq!["POST"@, "PUT"@, "PATCH"@, "DELETE"@]
}

/// A successful write on the internal interface; audience measures and
/// reads teach nothing.
pub open spec fn worth_learning_spec(o: ObservedView) -> bool {
    &&& writing_methods().contains(uppercased(o.method))
    &&& has_text(o.url, "/_api/"@)
    &&& !has_text(o.url, "clarity.ms"@)
    &&& !has_text(o.url, "analytics"@)
    &&& 200 <= o.status < 300
}

pub fn worth_learning(observed: &Observed) -> (r: bool)
    ensures
        r == worth_learning_spec(observed@),
{
    let method_text = uppercase(observed.method.as_str());
    let method = chars_of(method_text.as_str());
    let post = chars_of("POST");
    let put = chars_of("PUT");
    let patch = chars_of("PATCH");
    let delete = chars_of("DELETE");
    let writing = same_chars(&method, &post) || same_chars(&method, &put) || same_chars(
        &method,
        &patch,
    ) || same_chars(&method, &delete);
    proof {
        let m = uppercased(observed.method@);
        let w = writing_methods();
        if writing {
            if m == post@ {
                assert(w[0] == m);
            } else if m == put@ {
                assert(w[1] == m);
            } else if m == patch@ {
                assert(w[2] == m);
            } else {
                assert(w[3] == m);
            }
        } else {
            assert forall|i: int| 0 <= i < w.len() implies w[i] != m by {
            }
        }
    }
    if !writing {
        return false;
    }
    let url = chars_of(observed.url.as_str());
    if !contains(&url, &chars_of("/_api/")) {
        return false;
    }
    if contains(&url, &chars_of("clarity.ms")) || contains(&url, &chars_of("analytics")) {
        return false;
    }
    200 <= observed.status && observed.status < 300
}

/// A segment made of digits only, and at least one.
pub open spec fn is_number(segment: Seq<char>) -> bool {
    segment.len() > 0 && forall|i: int| 0 <= i < segment.len() ==> is_digit(#[trigger] segment[i])
}

/// `{n}`: the marker left in place of the `n`-th identifier.
pub open spec fn marker(n: nat) -> Seq<char> {
    seq!['{'] + decimal(n) + seq!['}']
}

pub open spec fn numbers_in(segments: Seq<Seq<char>>) -> nat
    decreases segments.len(),
{
    if segments.len() == 0 {
        0
    } else {
        numbers_in(segments.drop_last()) + if is_number(segments.last()) {
            1nat
        } else {
            0nat
        }
    }
}

/// Each numeric segment replaced with its marker, numbered from one.
pub open spec fn marked(segments: Seq<Seq<char>>) -> Seq<Seq<char>>
    decreases segments.len(),
{
    if segments.len() == 0 {
        seq![]
    } else {
        let before = segments.drop_last();
        marked(before).push(
            if is_number(segments.last()) {
                marker(numbers_in(before) + 1)
            } else {
                segments.last()
            },
        )
    }
}

pub proof fn lemma_marked_len(segments: Seq<Seq<char>>)
    ensures
        marked(segments).len() == segments.len(),
    decreases segments.len(),
{
    if segments.len() > 0 {
        lemma_marked_len(segments.drop_last());
    }
}

/// Position of the first `?` of an address, if any.
pub open spec fn query_mark(url: Seq<char>, p: int) -> bool {
    &&& 0 <= p < url.len()
    &&& url[p] == '?'
    &&& forall|j: int| 0 <= j < p ==> url[j] != '?'
}

pub open spec fn generalized_path(path: Seq<char>) -> Seq<char> {
    join_with(marked(split_on(path, '/')), '/')
}

/// The address with every all-digit segment of its path replaced with a
/// marker; the query string is left alone.
pub open spec fn generalized(url: Seq<char>) -> Seq<char> {
    if exists|p: int| query_mark(url, p) {
        let p = choose|p: int| query_mark(url, p);
        generalized_path(url.subrange(0, p)).push('?') + url.subrange(p + 1, url.len() as int)
    } else {
        generalized_path(url)
    }
}

fn all_digits(segment: &[char]) -> (r: bool)
    ensures
        r == is_number(segment@),
{
    if segment.len() == 0 {
        return false;
    }
    let mut k: usize = 0;
    while k < segment.len()
        invariant
            k <= segment@.len(),
            forall|j: int| 0 <= j < k ==> is_digit(#[trigger] segment@[j]),
        decreases segment@.len() - k,
    {
        if !digit(segment[k]) {
            return false;
        }
        k = k + 1;
    }
    true
}

fn marker_text(n: u64) -> (r: Vec<char>)
    ensures
        r@ == marker(n as nat),
{
    let mut out = Vec::new();
    out.push('{');
    append_chars(&mut out, &crate::text::decimal_text(n));
    out.push('}');
    assert(out@ =~= marker(n as nat));
    out
}

fn generalize_path(path: &[char]) -> (r: Vec<char>)
    ensures
        r@ == generalized_path(path@),
{
    let segments = split_chars(path, '/');
    let ghost pieces = split_on(path@, '/');
    let mut out_segments: Vec<Vec<char>> = Vec::new();
    let mut count: u64 = 0;
    let mut k: usize = 0;
    assert(pieces.subrange(0, 0) =~= Seq::<Seq<char>>::empty());
    while k < segments.len()
        invariant
            k <= segments@.len(),
            segments@.len() == pieces.len(),
            forall|i: int| 0 <= i < segments@.len() ==> (#[trigger] segments@[i])@ == pieces[i],
            count == numbers_in(pieces.subrange(0, k as int)),
            count <= k,
            out_segments@.len() == k,
            forall|i: int|
                0 <= i < k ==> (#[trigger] out_segments@[i])@ == marked(
                    pieces.subrange(0, k as int),
                )[i],
        decreases segments@.len() - k,
    {
        let ghost prefix = pieces.subrange(0, k + 1);
        proof {
            assert(prefix.drop_last() =~= pieces.subrange(0, k as int));
            assert(prefix.last() == segments@[k as int]@);
            lemma_marked_len(pieces.subrange(0, k as int));
        }
        if all_digits(&segments[k]) {
            count = count + 1;
            out_segments.push(marker_text(count));
        } else {
            out_segments.push(segments[k].clone());
        }
        proof {
            assert forall|i: int| 0 <= i < k + 1 implies (#[trigger] out_segments@[i])@ == marked(
                prefix,
            )[i] by {
            }
        }
        k = k + 1;
    }
    proof {
        assert(pieces.subrange(0, segments@.len() as int) =~= pieces);
        lemma_marked_len(pieces);
        assert(Seq::new(out_segments@.len(), |i: int| out_segments@[i]@) =~= marked(pieces));
    }
    join_chars(&out_segments, '/')
}

/// Replaces with a marker each address segment that is only a number:
/// `/_api/project-files/6123456` becomes `/_api/project-files/{1}`.
pub fn generalize(url: &str) -> (r: String)
    ensures
        r@ == generalized(url@),
{
    let chars = chars_of(url);
    let mut p: usize = 0;
    while p < chars.len() && chars[p] != '?'
        invariant
            p <= chars@.len(),
            chars@ == url@,
            forall|j: int| 0 <= j < p ==> chars@[j] != '?',
        decreases chars@.len() - p,
    {
        p = p + 1;
    }
    if p < chars.len() {
        assert(query_mark(url@, p as int));
        let path = crate::text::slice_text(&chars, 0, p);
        let query = crate::text::slice_text(&chars, p + 1, chars.len());
        let mut out = generalize_path(&path);
        out.push('?');
        append_chars(&mut out, &query);
        proof {
            let q = choose|q: int| query_mark(url@, q);
            assert(q == p) by {
                if q < p {
                    assert(chars@[q] != '?');
                }
                if p < q {
                    assert(url@[p as int] != '?');
                }
            }
        }
        text_of(&out)
    } else {
        assert(!exists|q: int| query_mark(url@, q));
        let out = generalize_path(&chars);
        text_of(&out)
    }
}

/// The pattern with the `n`-th marker replaced with the `n`-th value, for
/// the values from the first to the `count`-th.
pub open spec fn filled(pattern: Seq<char>, values: Seq<i64>, count: int) -> Seq<char>
    decreases count,
{
    if count <= 0 {
        pattern
    } else {
        replace_all(
            filled(pattern, values, count - 1),
            marker(count as nat),
            signed_decimal(values[count - 1] as int),
        )
    }
}

/// Puts identifiers back in place of the markers, in order.
pub fn fill(pattern: &str, values: &[i64]) -> (r: String)
    requires
        values@.len() < u64::MAX,
    ensures
        r@ == filled(pattern@, values@, values@.len() as int),
{
    let mut out = chars_of(pattern);
    let mut position: usize = 0;
    while position < values.len()
        invariant
            position <= values@.len(),
            values@.len() < u64::MAX,
            out@ == filled(pattern@, values@, position as int),
        decreases values@.len() - position,
    {
        let mark = marker_text((position + 1) as u64);
        let value = signed_text(values[position]);
        out = replace_chars(&out, &mark, &value);
        position = position + 1;
    }
    text_of(&out)
}

/// The gesture that an observed call teaches.
pub open spec fn gesture_of(o: ObservedView) -> GestureView {
    GestureView {
        method: uppercased(o.method),
        pattern: generalized(o.url),
        body: o.sent,
        status: o.status,
    }
}

pub open spec fn same_key(a: GestureView, b: GestureView) -> bool {
    a.method == b.method && a.pattern == b.pattern
}

/// The gestures kept from a series of calls: the useful ones, one per
/// method and pattern, each in the latest form observed.
pub open spec fn learned(observed: Seq<ObservedView>) -> Seq<GestureView>
    decreases observed.len(),
{
    if observed.len() == 0 {
        seq![]
    } else {
        let before = learned(observed.drop_last());
        let o = observed.last();
        if !worth_learning_spec(o) {
            before
        } else {
            let g = gesture_of(o);
            if exists|k: int| 0 <= k < before.len() && same_key(#[trigger] before[k], g) {
                before.map_values(|x: GestureView| if same_key(x, g) { g } else { x })
            } else {
                before.push(g)
            }
        }
    }
}

/// No two gestures share a method and a pattern.
pub open spec fn distinct_keys(gestures: Seq<GestureView>) -> bool {
    forall|i: int, j: int|
        0 <= i < gestures.len() && 0 <= j < gestures.len() && i != j ==> !same_key(
            #[trigger] gestures[i],
            #[trigger] gestures[j],
        )
}

pub open spec fn views_of(gestures: Seq<Gesture>) -> Seq<GestureView> {
    gestures.map_values(|g: Gesture| g@)
}

pub proof fn lemma_learned_distinct(observed: Seq<ObservedView>)
    ensures
        distinct_keys(learned(observed)),
    decreases observed.len(),
{
    if observed.len() > 0 {
        lemma_learned_distinct(observed.drop_last());
        let before = learned(observed.drop_last());
        let o = observed.last();
        if worth_learning_spec(o) {
            let g = gesture_of(o);
            if exists|k: int| 0 <= k < before.len() && same_key(#[trigger] before[k], g) {
                let after = before.map_values(
                    |x: GestureView|
                        if same_key(x, g) {
                            g
                        } else {
                            x
                        },
                );
                assert forall|i: int, j: int|
                    0 <= i < after.len() && 0 <= j < after.len() && i != j implies !same_key(
                    #[trigger] after[i],
                    #[trigger] after[j],
                ) by {
                    assert(!same_key(before[i], before[j]));
                }
            }
        }
    }
}

/// Observation `i` is worth learning and teaches the method and pattern of `g`.
pub open spec fn teaches(obs: Seq<ObservedView>, i: int, g: GestureView) -> bool {
    0 <= i < obs.len() && worth_learning_spec(obs[i]) && same_key(gesture_of(obs[i]), g)
}

/// The gesture at `k` is the form of the last observation that teaches it.
pub open spec fn latest_at(obs: Seq<ObservedView>, out: Seq<GestureView>, k: int) -> bool {
    exists|i: int|
        #[trigger] teaches(obs, i, out[k]) && out[k] == gesture_of(obs[i]) && forall|j: int|
            i < j < obs.len() ==> !#[trigger] teaches(obs, j, out[k])
}

/// Each gesture kept is the form of the last observation that teaches it.
#[verifier::opaque]
pub open spec fn latest_forms(obs: Seq<ObservedView>, out: Seq<GestureView>) -> bool {
    forall|k: int| 0 <= k < out.len() ==> #[trigger] latest_at(obs, out, k)
}

/// Every observation worth learning has its gesture kept.
#[verifier::opaque]
pub open spec fn all_taught(obs: Seq<ObservedView>, out: Seq<GestureView>) -> bool {
    forall|i: int|
        0 <= i < obs.len() && worth_learning_spec(obs[i]) ==> exists|k: int|
            0 <= k < out.len() && #[trigger] same_key(out[k], gesture_of(obs[i]))
}

/// Whatever observation teaches the gesture at `k2`, an earlier one taught
/// the gesture at `k1`.
pub open spec fn earlier_at(obs: Seq<ObservedView>, out: Seq<GestureView>, k1: int, k2: int) -> bool {
    forall|i2: int| teaches(obs, i2, out[k2]) ==> exists|i1: int| i1 < i2 && #[trigger] teaches(obs, i1, out[k1])
}

/// The gestures come in the order in which their method and pattern first
/// appeared.
#[verifier::opaque]
pub open spec fn taught_in_order(obs: Seq<ObservedView>, out: Seq<GestureView>) -> bool {
    forall|k1: int, k2: int| 0 <= k1 < k2 < out.len() ==> #[trigger] earlier_at(obs, out, k1, k2)
}

/// What learning keeps: one gesture per method and pattern, in the form of
/// the last observation that teaches it, for every observation worth
/// learning and nothing else, in the order in which each method and pattern
/// first appeared.
pub open spec fn learned_law(obs: Seq<ObservedView>, out: Seq<GestureView>) -> bool {
    &&& distinct_keys(out)
    &&& latest_forms(obs, out)
    &&& all_taught(obs, out)
    &&& taught_in_order(obs, out)
}

proof fn lemma_teaches_prefix(obs: Seq<ObservedView>, i: int, g: GestureView)
    requires
        0 <= i < obs.len() - 1,
    ensures
        teaches(obs.drop_last(), i, g) <==> teaches(obs, i, g),
{
    assert(obs.drop_last()[i] == obs[i]);
}

/// The witness that `latest_forms` gives for the gesture at `k`.
proof fn lemma_latest_witness(obs: Seq<ObservedView>, out: Seq<GestureView>, k: int) -> (i: int)
    requires
        latest_forms(obs, out),
        0 <= k < out.len(),
    ensures
        teaches(obs, i, out[k]),
        out[k] == gesture_of(obs[i]),
        forall|j: int| i < j < obs.len() ==> !#[trigger] teaches(obs, j, out[k]),
{
    reveal(latest_forms);
    assert(latest_at(obs, out, k));
    let g = out[k];
    choose|i: int| #[trigger] teaches(obs, i, g) && g == gesture_of(obs[i]) && forall|j: int| i < j < obs.len() ==> !#[trigger] teaches(obs, j, g)
}

/// A gesture kept for every observation worth learning.
proof fn lemma_taught_witness(obs: Seq<ObservedView>, out: Seq<GestureView>, i: int) -> (k: int)
    requires
        all_taught(obs, out),
        0 <= i < obs.len(),
        worth_learning_spec(obs[i]),
    ensures
        0 <= k < out.len(),
        same_key(out[k], gesture_of(obs[i])),
{
    reveal(all_taught);
    choose|k: int| 0 <= k < out.len() && #[trigger] same_key(out[k], gesture_of(obs[i]))
}

proof fn lemma_order_witness(obs: Seq<ObservedView>, out: Seq<GestureView>, k1: int, k2: int, i2: int) -> (i1: int)
    requires
        taught_in_order(obs, out),
        0 <= k1 < k2 < out.len(),
        teaches(obs, i2, out[k2]),
    ensures
        i1 < i2,
        teaches(obs, i1, out[k1]),
{
    reveal(taught_in_order);
    assert(earlier_at(obs, out, k1, k2));
    let a = out[k1];
    choose|i1: int| i1 < i2 && #[trigger] teaches(obs, i1, a)
}

/// What `learned` is after one more observation: the gestures before, the
/// one of the same method and pattern replaced, or the new one added.
proof fn lemma_learned_step(obs: Seq<ObservedView>)
    requires
        obs.len() > 0,
    ensures
        !worth_learning_spec(obs.last()) ==> learned(obs) == learned(obs.drop_last()),
        worth_learning_spec(obs.last()) ==> {
            let before = learned(obs.drop_last());
            let g = gesture_of(obs.last());
            if exists|p: int| 0 <= p < before.len() && same_key(#[trigger] before[p], g) {
                &&& learned(obs).len() == before.len()
                &&& forall|k: int| 0 <= k < before.len() ==> #[trigger] learned(obs)[k] == if same_key(before[k], g) { g } else { before[k] }
            } else {
                learned(obs) == before.push(g)
            }
        },
{
}

proof fn lemma_learn_step_forms(obs: Seq<ObservedView>)
    requires
        obs.len() > 0,
        learned_law(obs.drop_last(), learned(obs.drop_last())),
    ensures
        latest_forms(obs, learned(obs)),
{
    let pre = obs.drop_last();
    let n = obs.len() - 1;
    let before = learned(pre);
    let out = learned(obs);
    let o = obs.last();
    let g = gesture_of(o);
    lemma_learned_step(obs);
    lemma_learned_distinct(pre);
    assert(obs[n] == o);
    assert forall|k: int| 0 <= k < out.len() implies #[trigger] latest_at(obs, out, k) by {
        let fresh = worth_learning_spec(o) && (k == before.len() || same_key(before[k], g));
        if fresh {
            assert(out[k] == g);
            assert(teaches(obs, n, out[k]));
        } else {
            assert(out[k] == before[k]);
            let i = lemma_latest_witness(pre, before, k);
            lemma_teaches_prefix(obs, i, out[k]);
            assert(pre[i] == obs[i]);
            assert forall|j: int| i < j < obs.len() implies !#[trigger] teaches(obs, j, out[k]) by {
                if j < n {
                    lemma_teaches_prefix(obs, j, out[k]);
                }
            }
            assert(teaches(obs, i, out[k]) && out[k] == gesture_of(obs[i]));
        }
    }
    assert(latest_forms(obs, out)) by {
        reveal(latest_forms);
    }
}

proof fn lemma_learn_step_taught(obs: Seq<ObservedView>)
    requires
        obs.len() > 0,
        learned_law(obs.drop_last(), learned(obs.drop_last())),
    ensures
        all_taught(obs, learned(obs)),
{
    let pre = obs.drop_last();
    let n = obs.len() - 1;
    let before = learned(pre);
    let out = learned(obs);
    let o = obs.last();
    let g = gesture_of(o);
    lemma_learned_step(obs);
    assert(obs[n] == o);
    assert forall|i: int| 0 <= i < obs.len() && worth_learning_spec(obs[i]) implies exists|k: int|
        0 <= k < out.len() && #[trigger] same_key(out[k], gesture_of(obs[i])) by {
        if i == n {
            if exists|p: int| 0 <= p < before.len() && same_key(#[trigger] before[p], g) {
                let p = choose|p: int| 0 <= p < before.len() && same_key(#[trigger] before[p], g);
                assert(same_key(out[p], gesture_of(obs[i])));
            } else {
                assert(same_key(out[before.len() as int], gesture_of(obs[i])));
            }
        } else {
            assert(pre[i] == obs[i]);
            let k = lemma_taught_witness(pre, before, i);
            assert(same_key(out[k], gesture_of(obs[i])));
        }
    }
    reveal(all_taught);
}

proof fn lemma_learn_step_order(obs: Seq<ObservedView>)
    requires
        obs.len() > 0,
        learned_law(obs.drop_last(), learned(obs.drop_last())),
    ensures
        taught_in_order(obs, learned(obs)),
{
    let pre = obs.drop_last();
    let n = obs.len() - 1;
    let before = learned(pre);
    let out = learned(obs);
    let o = obs.last();
    let g = gesture_of(o);
    lemma_learned_step(obs);
    assert(obs[n] == o);
    assert forall|k1: int, k2: int| 0 <= k1 < k2 < out.len() implies #[trigger] earlier_at(obs, out, k1, k2) by {
        assert forall|i2: int| teaches(obs, i2, out[k2]) implies exists|i1: int| i1 < i2 && #[trigger] teaches(obs, i1, out[k1]) by {
            // The keys of the gestures before stay where they were.
            assert(same_key(out[k1], before[k1]));
            let i0 = lemma_latest_witness(pre, before, k1);
            lemma_teaches_prefix(obs, i0, out[k1]);
            if k2 < before.len() {
                assert(same_key(out[k2], before[k2]));
                if i2 < n {
                    lemma_teaches_prefix(obs, i2, out[k2]);
                    assert(teaches(pre, i2, before[k2]));
                    let i1 = lemma_order_witness(pre, before, k1, k2, i2);
                    lemma_teaches_prefix(obs, i1, out[k1]);
                    assert(teaches(obs, i1, out[k1]));
                } else {
                    // The last observation teaches `out[k2]`: it was already taught.
                    let ip = lemma_latest_witness(pre, before, k2);
                    let i1 = lemma_order_witness(pre, before, k1, k2, ip);
                    lemma_teaches_prefix(obs, i1, out[k1]);
                    assert(teaches(obs, i1, out[k1]));
                }
            } else {
                // A new gesture: only the last observation teaches it.
                if i2 < n {
                    lemma_teaches_prefix(obs, i2, out[k2]);
                    assert(out[k2] == g);
                    let k = lemma_taught_witness(pre, before, i2);
                    assert(same_key(before[k], g));
                }
                assert(teaches(obs, i0, out[k1]));
            }
        }
    }
    assert(taught_in_order(obs, out)) by {
        reveal(taught_in_order);
    }
}

/// Learning keeps one gesture per method and pattern, each in the form of
/// the last observation that taught it, for every observation worth learning
/// and for nothing else, in the order in which each method and pattern first
/// appeared.
pub proof fn learning_keeps_the_latest_form_of_each_gesture(obs: Seq<ObservedView>)
    ensures
        learned_law(obs, learned(obs)),
    decreases obs.len(),
{
    lemma_learned_distinct(obs);
    if obs.len() == 0 {
        reveal(latest_forms);
        reveal(all_taught);
        reveal(taught_in_order);
    } else {
        learning_keeps_the_latest_form_of_each_gesture(obs.drop_last());
        lemma_learn_step_forms(obs);
        lemma_learn_step_taught(obs);
        lemma_learn_step_order(obs);
    }
}

/// Keeps the useful gestures of an observation, without duplicates: a
/// gesture made again keeps only its latest form.
pub fn learn(observed: &[Observed]) -> (r: Vec<Gesture>)
    ensures
        views_of(r@) == learned(observed@.map_values(|o: Observed| o@)),
        distinct_keys(views_of(r@)),
{
    let ghost obs = observed@.map_values(|o: Observed| o@);
    let mut out: Vec<Gesture> = Vec::new();
    let mut k: usize = 0;
    assert(obs.subrange(0, 0) =~= Seq::<ObservedView>::empty());
    assert(views_of(out@) =~= Seq::<GestureView>::empty());
    while k < observed.len()
        invariant
            k <= observed@.len(),
            obs == observed@.map_values(|o: Observed| o@),
            views_of(out@) == learned(obs.subrange(0, k as int)),
        decreases observed@.len() - k,
    {
        let ghost prefix = obs.subrange(0, k + 1);
        let ghost before = learned(obs.subrange(0, k as int));
        proof {
            assert(prefix.drop_last() =~= obs.subrange(0, k as int));
            assert(prefix.last() == observed@[k as int]@);
            lemma_learned_distinct(obs.subrange(0, k as int));
        }
        let entry = &observed[k];
        if worth_learning(entry) {
            let gesture = Gesture {
                method: uppercase(entry.method.as_str()),
                pattern: generalize(entry.url.as_str()),
                body: entry.sent.clone(),
                status: entry.status,
            };
            let ghost g = gesture@;
            assert(g == gesture_of(entry@));
            let mut found: Option<usize> = None;
            let mut j: usize = 0;
            while j < out.len()
                invariant
                    j <= out@.len(),
                    views_of(out@) == before,
                    g == gesture@,
                    found is None ==> forall|i: int| 0 <= i < j ==> !same_key(#[trigger] before[i], g),
                    found matches Some(f) ==> f < out@.len() && same_key(before[f as int], g),
                decreases out@.len() - j,
            {
                if found.is_none() && out[j].method == gesture.method && out[j].pattern == gesture.pattern {
                    found = Some(j);
                }
                j = j + 1;
            }
            match found {
                Some(f) => {
                    let ghost old_out = out@;
                    out.set(f, gesture);
                    proof {
                        let expect = before.map_values(
                            |x: GestureView|
                                if same_key(x, g) {
                                    g
                                } else {
                                    x
                                },
                        );
                        assert forall|i: int| 0 <= i < out@.len() implies views_of(out@)[i]
                            == expect[i] by {
                            if i != f {
                                assert(!same_key(before[i], before[f as int]));
                            }
                        }
                        assert(views_of(out@) =~= expect);
                    }
                },
                None => {
                    out.push(gesture);
                    assert(views_of(out@) =~= before.push(g));
                },
            }
        }
        k = k + 1;
    }
    proof {
        assert(obs.subrange(0, observed@.len() as int) =~= obs);
        lemma_learned_distinct(obs);
    }
    out
}

pub open spec fn is_creation(g: GestureView) -> bool {
    g.method == "POST"@ && ends(g.pattern, "/_api/projects"@)
}

pub open spec fn is_file_deletion(g: GestureView) -> bool {
    g.method == "DELETE"@ && has_text(g.pattern, "file"@)
}

pub open spec fn is_file_shelving(g: GestureView) -> bool {
    &&& has_text(g.pattern, "file"@)
    &&& (has_text(g.pattern, "archive"@) || has_text(g.pattern, "delete"@) || g.method == "PUT"@)
}

/// `k` is the first position whose gesture satisfies `p`.
pub open spec fn first_such(gestures: Seq<GestureView>, p: spec_fn(GestureView) -> bool, k: int) -> bool {
    &&& 0 <= k < gestures.len()
    &&& p(gestures[k])
    &&& forall|j: int| 0 <= j < k ==> !p(#[trigger] gestures[j])
}

fn find_gesture(gestures: &[Gesture], which: u8) -> (r: Option<usize>)
    requires
        which < 3,
    ensures
        match r {
            Some(k) => first_such(
                views_of(gestures@),
                |g: GestureView|
                    if which == 0 {
                        is_creation(g)
                    } else if which == 1 {
                        is_file_deletion(g)
                    } else {
                        is_file_shelving(g)
                    },
                k as int,
            ),
            None => forall|j: int|
                0 <= j < gestures@.len() ==> !(if which == 0 {
                    is_creation(#[trigger] views_of(gestures@)[j])
                } else if which == 1 {
                    is_file_deletion(views_of(gestures@)[j])
                } else {
                    is_file_shelving(views_of(gestures@)[j])
                }),
        },
{
    let post = chars_of("POST");
    let delete_method = chars_of("DELETE");
    let put = chars_of("PUT");
    let projects = chars_of("/_api/projects");
    let file = chars_of("file");
    let archive = chars_of("archive");
    let delete_word = chars_of("delete");
    let mut k: usize = 0;
    while k < gestures.len()
        invariant
            k <= gestures@.len(),
            which < 3,
            post@ == "POST"@,
            delete_method@ == "DELETE"@,
            put@ == "PUT"@,
            projects@ == "/_api/projects"@,
            file@ == "file"@,
            archive@ == "archive"@,
            delete_word@ == "delete"@,
            forall|j: int|
                0 <= j < k ==> !(if which == 0 {
                    is_creation(#[trigger] views_of(gestures@)[j])
                } else if which == 1 {
                    is_file_deletion(views_of(gestures@)[j])
                } else {
                    is_file_shelving(views_of(gestures@)[j])
                }),
        decreases gestures@.len() - k,
    {
        let method = chars_of(gestures[k].method.as_str());
        let pattern = chars_of(gestures[k].pattern.as_str());
        let hit = if which == 0 {
            same_chars(&method, &post) && ends_with(&pattern, &projects)
        } else if which == 1 {
            same_chars(&method, &delete_method) && contains(&pattern, &file)
        } else {
            contains(&pattern, &file) && (contains(&pattern, &archive) || contains(
                &pattern,
                &delete_word,
            ) || same_chars(&method, &put))
        };
        assert(views_of(gestures@)[k as int] == gestures@[k as int]@);
        if hit {
            return Some(k);
        }
        k = k + 1;
    }
    None
}

/// The learned gesture that creates a project.
pub fn creation(gestures: &[Gesture]) -> (r: Option<&Gesture>)
    ensures
        match r {
            Some(g) => exists|k: int|
                first_such(views_of(gestures@), |x: GestureView| is_creation(x), k) && *g
                    == gestures@[k],
            None => forall|j: int|
                0 <= j < gestures@.len() ==> !is_creation(#[trigger] views_of(gestures@)[j]),
        },
{
    match find_gesture(gestures, 0) {
        Some(k) => {
            let g = &gestures[k];
            assert(first_such(views_of(gestures@), |x: GestureView| is_creation(x), k as int));
            Some(g)
        },
        None => None,
    }
}

/// The learned gesture that removes a file: a deletion, or failing that the
/// call that shelves the file out of view when the site prefers that detour.
pub fn file_removal(gestures: &[Gesture]) -> (r: Option<&Gesture>)
    ensures
        match r {
            Some(g) => (exists|k: int|
                first_such(views_of(gestures@), |x: GestureView| is_file_deletion(x), k) && *g
                    == gestures@[k]) || ((forall|j: int|
                0 <= j < gestures@.len() ==> !is_file_deletion(
                    #[trigger] views_of(gestures@)[j],
                )) && exists|k: int|
                first_such(views_of(gestures@), |x: GestureView| is_file_shelving(x), k) && *g
                    == gestures@[k]),
            None => forall|j: int|
                0 <= j < gestures@.len() ==> !is_file_deletion(#[trigger] views_of(gestures@)[j])
                    && !is_file_shelving(views_of(gestures@)[j]),
        },
{
    match find_gesture(gestures, 1) {
        Some(k) => {
            assert(first_such(views_of(gestures@), |x: GestureView| is_file_deletion(x), k as int));
            Some(&gestures[k])
        },
        None => match find_gesture(gestures, 2) {
            Some(k) => {
                assert(first_such(
                    views_of(gestures@),
                    |x: GestureView| is_file_shelving(x),
                    k as int,
                ));
                Some(&gestures[k])
            },
            None => None,
        },
    }
}


// Rewriting a learned body for another project.

/// The replacement set for a key: the last change that names it.
pub open spec fn change_for(changes: Seq<(String, Json)>, key: Seq<char>) -> Option<Json>
    decreases changes.len(),
{
    if changes.len() == 0 {
        None
    } else if changes.last().0@ == key {
        Some(changes.last().1)
    } else {
        change_for(changes.drop_last(), key)
    }
}

/// Rewriting `v` ends within `n` nested replacements. A replacement is
/// rewritten in turn, so a replacement that leads back to its own key never
/// ends; this measures the depth when it does.
pub open spec fn settles(v: Json, changes: Seq<(String, Json)>, n: nat) -> bool
    decreases n, v,
{
    match v {
        Json::Array(items) => forall|i: int| 0 <= i < items@.len() ==> settles(#[trigger] items@[i], changes, n),
        Json::Object(fields) => forall|i: int| 0 <= i < fields@.len() ==> match change_for(changes, (#[trigger] fields@[i]).0@) {
            Some(r) => n > 0 && settles(r, changes, (n - 1) as nat),
            None => settles(fields@[i].1, changes, n),
        },
        _ => true,
    }
}

/// `out` is `v` with, in every object at any depth, the members whose key a
/// change names replaced by that change's value, itself rewritten; the rest
/// is carried over as it was.
pub open spec fn rewritten(out: Json, v: Json, changes: Seq<(String, Json)>, n: nat) -> bool
    decreases n, v,
{
    match v {
        Json::Null => out is Null,
        Json::Bool(b) => out == Json::Bool(b),
        Json::Number(i, t) => out matches Json::Number(j, u) && j == i && u@ == t@,
        Json::Text(t) => out matches Json::Text(u) && u@ == t@,
        Json::Array(items) => out matches Json::Array(os) && os@.len() == items@.len() && forall|i: int|
            0 <= i < items@.len() ==> rewritten(#[trigger] os@[i], items@[i], changes, n),
        Json::Object(fields) => out matches Json::Object(os) && os@.len() == fields@.len() && forall|i: int|
            0 <= i < fields@.len() ==> {
                &&& (#[trigger] os@[i]).0@ == fields@[i].0@
                &&& match change_for(changes, fields@[i].0@) {
                    Some(r) => n > 0 && rewritten(os@[i].1, r, changes, (n - 1) as nat),
                    None => rewritten(os@[i].1, fields@[i].1, changes, n),
                }
            },
    }
}

/// The index of the change that names the key, the last one.
fn change_index(changes: &Vec<(String, Json)>, key: &String) -> (r: Option<usize>)
    ensures
        match r {
            Some(j) => j < changes@.len() && change_for(changes@, key@) == Some(changes@[j as int].1),
            None => change_for(changes@, key@) is None,
        },
{
    let wanted = chars_of(key.as_str());
    let mut found: Option<usize> = None;
    let mut k: usize = 0;
    assert(changes@.subrange(0, 0) =~= Seq::<(String, Json)>::empty());
    while k < changes.len()
        invariant
            k <= changes@.len(),
            wanted@ == key@,
            match found {
                Some(j) => j < k && change_for(changes@.subrange(0, k as int), key@) == Some(changes@[j as int].1),
                None => change_for(changes@.subrange(0, k as int), key@) is None,
            },
        decreases changes@.len() - k,
    {
        proof {
            assert(changes@.subrange(0, k + 1).drop_last() =~= changes@.subrange(0, k as int));
            assert(changes@.subrange(0, k + 1).last() == changes@[k as int]);
        }
        if same_chars(&chars_of(changes[k].0.as_str()), &wanted) {
            found = Some(k);
        }
        k = k + 1;
    }
    assert(changes@.subrange(0, changes@.len() as int) =~= changes@);
    found
}

fn rewrite(value: &Json, changes: &Vec<(String, Json)>, Ghost(n): Ghost<nat>) -> (r: Json)
    requires
        settles(*value, changes@, n),
    ensures
        rewritten(r, *value, changes@, n),
    decreases n, *value,
{
    match value {
        Json::Null => Json::Null,
        Json::Bool(b) => Json::Bool(*b),
        Json::Number(i, t) => Json::Number(*i, t.clone()),
        Json::Text(t) => Json::Text(t.clone()),
        Json::Array(items) => {
            let mut out: Vec<Json> = Vec::new();
            let mut k: usize = 0;
            while k < items.len()
                invariant
                    k <= items@.len(),
                    *value == Json::Array(*items),
                    settles(*value, changes@, n),
                    out@.len() == k,
                    forall|i: int| 0 <= i < k ==> rewritten(#[trigger] out@[i], items@[i], changes@, n),
                decreases items@.len() - k,
            {
                proof {
                    assert(decreases_to!(*value => (*value)->Array_0));
                    assert(decreases_to!(*items => items@));
                    assert(decreases_to!(items@ => items@[k as int]));
                    assert(decreases_to!(*value => items@[k as int]));
                    assert(settles(items@[k as int], changes@, n));
                }
                let x = rewrite(&items[k], changes, Ghost(n));
                out.push(x);
                k = k + 1;
            }
            Json::Array(out)
        },
        Json::Object(fields) => {
            let mut out: Vec<(String, Json)> = Vec::new();
            let mut k: usize = 0;
            while k < fields.len()
                invariant
                    k <= fields@.len(),
                    *value == Json::Object(*fields),
                    settles(*value, changes@, n),
                    out@.len() == k,
                    forall|i: int| 0 <= i < k ==> {
                        &&& (#[trigger] out@[i]).0@ == fields@[i].0@
                        &&& match change_for(changes@, fields@[i].0@) {
                            Some(r) => n > 0 && rewritten(out@[i].1, r, changes@, (n - 1) as nat),
                            None => rewritten(out@[i].1, fields@[i].1, changes@, n),
                        }
                    },
                decreases fields@.len() - k,
            {
                proof {
                    assert(decreases_to!(*value => (*value)->Object_0));
                    assert(decreases_to!(*fields => fields@));
                    assert(decreases_to!(fields@ => fields@[k as int]));
                    assert(decreases_to!(fields@[k as int] => fields@[k as int].1));
                    assert(decreases_to!(*value => fields@[k as int].1));
                }
                let x = match change_index(changes, &fields[k].0) {
                    Some(j) => {
                        proof {
                            assert(n > 0 && settles(changes@[j as int].1, changes@, (n - 1) as nat));
                        }
                        rewrite(&changes[j].1, changes, Ghost((n - 1) as nat))
                    },
                    None => {
                        proof {
                            assert(settles(fields@[k as int].1, changes@, n));
                        }
                        rewrite(&fields[k].1, changes, Ghost(n))
                    },
                };
                out.push((fields[k].0.clone(), x));
                k = k + 1;
            }
            Json::Object(out)
        },
    }
}

/// Whether rewriting `value` ends within `n` nested replacements.
pub fn settles_within(value: &Json, changes: &Vec<(String, Json)>, n: u64) -> (r: bool)
    ensures
        r == settles(*value, changes@, n as nat),
    decreases n, *value,
{
    match value {
        Json::Array(items) => {
            let mut k: usize = 0;
            while k < items.len()
                invariant
                    k <= items@.len(),
                    *value == Json::Array(*items),
                    forall|i: int| 0 <= i < k ==> settles(#[trigger] items@[i], changes@, n as nat),
                decreases items@.len() - k,
            {
                proof {
                    assert(decreases_to!(*value => (*value)->Array_0));
                    assert(decreases_to!(*items => items@));
                    assert(decreases_to!(items@ => items@[k as int]));
                    assert(decreases_to!(*value => items@[k as int]));
                }
                if !settles_within(&items[k], changes, n) {
                    return false;
                }
                k = k + 1;
            }
            true
        },
        Json::Object(fields) => {
            let mut k: usize = 0;
            while k < fields.len()
                invariant
                    k <= fields@.len(),
                    *value == Json::Object(*fields),
                    forall|i: int| 0 <= i < k ==> match change_for(changes@, (#[trigger] fields@[i]).0@) {
                        Some(r) => n > 0 && settles(r, changes@, (n - 1) as nat),
                        None => settles(fields@[i].1, changes@, n as nat),
                    },
                decreases fields@.len() - k,
            {
                proof {
                    assert(decreases_to!(*value => (*value)->Object_0));
                    assert(decreases_to!(*fields => fields@));
                    assert(decreases_to!(fields@ => fields@[k as int]));
                    assert(decreases_to!(fields@[k as int] => fields@[k as int].1));
                    assert(decreases_to!(*value => fields@[k as int].1));
                }
                let ok = match change_index(changes, &fields[k].0) {
                    Some(j) => n > 0 && settles_within(&changes[j].1, changes, n - 1),
                    None => settles_within(&fields[k].1, changes, n),
                };
                if !ok {
                    return false;
                }
                k = k + 1;
            }
            true
        },
        _ => true,
    }
}

/// Rewrites the body learned for another project. Only the named keys
/// change, at any depth; everything else, the required fields whose role is
/// unknown among them, is carried over as the site sent it: that is the
/// whole point of having watched rather than guessed. A body that is not
/// JSON (`parsed` is its decoding) comes back untouched, as an error.
pub fn adapt_body(body: &str, parsed: Option<Json>, changes: &Vec<(String, Json)>) -> (r: Result<Json, String>)
    requires
        parsed matches Some(v) ==> exists|n: nat| settles(v, changes@, n),
    ensures
        match parsed {
            None => r matches Err(t) && t@ == body@,
            Some(v) => r matches Ok(out) && exists|n: nat| settles(v, changes@, n) && rewritten(out, v, changes@, n),
        },
{
    match parsed {
        None => Err(body.to_string()),
        Some(v) => {
            let ghost n = choose|n: nat| settles(v, changes@, n);
            let out = rewrite(&v, changes, Ghost(n));
            Ok(out)
        },
    }
}

// Filling a generalised address.

/// Replacing in two texts joined gives the two replaced texts joined, when no
/// occurrence runs across the joint.
proof fn lemma_replace_concat(a: Seq<char>, b: Seq<char>, m: Seq<char>, v: Seq<char>)
    requires
        m.len() > 0,
        forall|i: int| 0 <= i < a.len() && a.len() < i + m.len() ==> !#[trigger] starts((a + b).skip(i), m),
    ensures
        replace_all(a + b, m, v) == replace_all(a, m, v) + replace_all(b, m, v),
    decreases a.len(),
{
    let s = a + b;
    if a.len() == 0 {
        assert(s =~= b);
    } else if starts(s, m) {
        assert(s.skip(0) =~= s);
        assert(m.len() <= a.len());
        assert(a.subrange(0, m.len() as int) =~= s.subrange(0, m.len() as int));
        let a2 = a.skip(m.len() as int);
        assert(s.skip(m.len() as int) =~= a2 + b);
        assert forall|i: int| 0 <= i < a2.len() && a2.len() < i + m.len() implies !#[trigger] starts(
            (a2 + b).skip(i),
            m,
        ) by {
            assert((a2 + b).skip(i) =~= s.skip(i + m.len()));
        }
        lemma_replace_concat(a2, b, m, v);
        assert((v + replace_all(a2, m, v)) + replace_all(b, m, v) =~= v + (replace_all(a2, m, v)
            + replace_all(b, m, v)));
    } else {
        if starts(a, m) {
            assert(s.subrange(0, m.len() as int) =~= a.subrange(0, m.len() as int));
        }
        let a2 = a.skip(1);
        assert(s.skip(1) =~= a2 + b);
        assert forall|i: int| 0 <= i < a2.len() && a2.len() < i + m.len() implies !#[trigger] starts(
            (a2 + b).skip(i),
            m,
        ) by {
            assert((a2 + b).skip(i) =~= s.skip(i + 1));
        }
        lemma_replace_concat(a2, b, m, v);
        assert(s[0] == a[0]);
        assert((seq![a[0]] + replace_all(a2, m, v)) + replace_all(b, m, v) =~= seq![a[0]] + (
        replace_all(a2, m, v) + replace_all(b, m, v)));
    }
}

/// A text without the first character of `m` holds no occurrence of it.
proof fn lemma_replace_absent(s: Seq<char>, m: Seq<char>, v: Seq<char>)
    requires
        m.len() > 0,
        forall|i: int| 0 <= i < s.len() ==> s[i] != m[0],
    ensures
        replace_all(s, m, v) == s,
    decreases s.len(),
{
    if s.len() > 0 {
        if starts(s, m) {
            assert(s.subrange(0, m.len() as int)[0] == s[0]);
        }
        lemma_replace_absent(s.skip(1), m, v);
        assert(seq![s[0]] + s.skip(1) =~= s);
    }
}

/// `m` replaced in itself is the replacement.
proof fn lemma_replace_whole(m: Seq<char>, v: Seq<char>)
    requires
        m.len() > 0,
    ensures
        replace_all(m, m, v) == v,
{
    assert(m.subrange(0, m.len() as int) =~= m);
    assert(starts(m, m));
    let rest = m.skip(m.len() as int);
    assert(rest =~= Seq::<char>::empty());
    assert(replace_all(rest, m, v) == rest);
    assert(replace_all(m, m, v) == v + replace_all(rest, m, v));
    assert(v + rest =~= v);
}

/// A character that `m` does not hold, at index `k` of `a + b` with `k` the
/// last index of `a` or the first of `b`, keeps every occurrence of `m` on
/// one side.
proof fn lemma_no_straddle(a: Seq<char>, b: Seq<char>, m: Seq<char>, k: int)
    requires
        k == a.len() - 1 || k == a.len(),
        0 <= k < a.len() + b.len(),
        forall|j: int| 0 <= j < m.len() ==> m[j] != (a + b)[k],
    ensures
        forall|i: int| 0 <= i < a.len() && a.len() < i + m.len() ==> !#[trigger] starts((a + b).skip(i), m),
{
    assert forall|i: int| 0 <= i < a.len() && a.len() < i + m.len() implies !#[trigger] starts(
        (a + b).skip(i),
        m,
    ) by {
        if starts((a + b).skip(i), m) {
            let j = k - i;
            assert((a + b).skip(i).subrange(0, m.len() as int)[j] == m[j]);
            assert((a + b).skip(i)[j] == (a + b)[k]);
        }
    }
}

/// Each part with `m` replaced by `v`.
pub open spec fn replaced_parts(parts: Seq<Seq<char>>, m: Seq<char>, v: Seq<char>) -> Seq<Seq<char>> {
    Seq::new(parts.len(), |i: int| replace_all(parts[i], m, v))
}

/// Replacing in parts joined with `/` replaces in each part, when `m` holds
/// no `/`.
proof fn lemma_replace_join(parts: Seq<Seq<char>>, m: Seq<char>, v: Seq<char>)
    requires
        m.len() > 0,
        forall|j: int| 0 <= j < m.len() ==> m[j] != '/',
    ensures
        replace_all(join_with(parts, '/'), m, v) == join_with(replaced_parts(parts, m, v), '/'),
    decreases parts.len(),
{
    let f = replaced_parts(parts, m, v);
    if parts.len() == 0 {
    } else if parts.len() == 1 {
        assert(f[0] == replace_all(parts[0], m, v));
    } else {
        let pre = parts.drop_last();
        lemma_replace_join(pre, m, v);
        let j = join_with(pre, '/');
        let slash = seq!['/'];
        let a = j + slash;
        let b = parts.last();
        assert(j.push('/') =~= a);
        lemma_no_straddle(a, b, m, a.len() - 1);
        lemma_replace_concat(a, b, m, v);
        lemma_no_straddle(j, slash, m, j.len() as int);
        lemma_replace_concat(j, slash, m, v);
        lemma_replace_absent(slash, m, v);
        assert(f.drop_last() =~= replaced_parts(pre, m, v));
        assert(f.last() == replace_all(b, m, v));
        assert(join_with(f, '/') == join_with(f.drop_last(), '/').push('/') + f.last());
        assert(join_with(f.drop_last(), '/').push('/') =~= join_with(f.drop_last(), '/') + slash);
    }
}

/// Adding a character to the last part adds it to the joined text.
proof fn lemma_join_push(parts: Seq<Seq<char>>, c: char, x: char)
    requires
        parts.len() >= 1,
    ensures
        join_with(parts.update(parts.len() - 1, parts.last().push(x)), c) == join_with(parts, c).push(x),
{
    let u = parts.update(parts.len() - 1, parts.last().push(x));
    if parts.len() > 1 {
        assert(u.drop_last() =~= parts.drop_last());
        assert(join_with(u, c) == join_with(u.drop_last(), c).push(c) + u.last());
        assert(join_with(parts, c) == join_with(parts.drop_last(), c).push(c) + parts.last());
        assert(join_with(u.drop_last(), c).push(c) + parts.last().push(x) =~= (join_with(
            parts.drop_last(),
            c,
        ).push(c) + parts.last()).push(x));
    }
}

/// Cutting at a character and joining back with it gives the text back.
proof fn lemma_split_join(s: Seq<char>, c: char)
    ensures
        join_with(split_on(s, c), c) == s,
    decreases s.len(),
{
    if s.len() == 0 {
        assert(join_with(split_on(s, c), c) =~= s);
    } else {
        let before = split_on(s.drop_last(), c);
        lemma_split_join(s.drop_last(), c);
        crate::text::lemma_split_nonempty(s.drop_last(), c);
        if s.last() == c {
            let parts = before.push(Seq::<char>::empty());
            assert(parts.drop_last() =~= before);
            assert(join_with(parts, c) == join_with(before, c).push(c) + parts.last());
            assert(join_with(before, c).push(c) + Seq::<char>::empty() =~= s);
        } else {
            lemma_join_push(before, c, s.last());
            assert(s.drop_last().push(s.last()) =~= s);
        }
    }
}

proof fn lemma_decimal_digits(n: nat)
    ensures
        decimal(n).len() >= 1,
        n >= 10 ==> decimal(n).len() >= 2,
        forall|i: int| 0 <= i < decimal(n).len() ==> is_digit(#[trigger] decimal(n)[i]),
    decreases n,
{
    if n >= 10 {
        lemma_decimal_digits(n / 10);
        let d = decimal(n / 10);
        assert forall|i: int| 0 <= i < decimal(n).len() implies is_digit(#[trigger] decimal(n)[i]) by {
            if i < d.len() {
                assert(decimal(n)[i] == d[i]);
            }
        }
    }
}

proof fn lemma_digit_char_injective(a: int, b: int)
    requires
        0 <= a < 10,
        0 <= b < 10,
        digit_char(a) == digit_char(b),
    ensures
        a == b,
{
    assert(digit_char(a) as u32 == (a + 48) as u32);
    assert(digit_char(b) as u32 == (b + 48) as u32);
}

/// Two numbers write differently.
proof fn lemma_decimal_injective(a: nat, b: nat)
    requires
        decimal(a) == decimal(b),
    ensures
        a == b,
    decreases a,
{
    lemma_decimal_digits(a);
    lemma_decimal_digits(b);
    if a < 10 {
        assert(decimal(a) == seq![digit_char(a as int)]);
    } else {
        assert(decimal(a) == decimal(a / 10).push(digit_char((a % 10) as int)));
    }
    if b < 10 {
        assert(decimal(b) == seq![digit_char(b as int)]);
    } else {
        assert(decimal(b) == decimal(b / 10).push(digit_char((b % 10) as int)));
    }
    if a < 10 && b < 10 {
        assert(decimal(a)[0] == digit_char(a as int));
        assert(decimal(b)[0] == digit_char(b as int));
        assert(decimal(a)[0] == decimal(b)[0]);
        assert(digit_char(a as int) == digit_char(b as int));
        lemma_digit_char_injective(a as int, b as int);
    } else if a >= 10 && b >= 10 {
        assert(decimal(a).last() == digit_char((a % 10) as int));
        assert(decimal(b).last() == digit_char((b % 10) as int));
        assert(decimal(a).last() == decimal(b).last());
        lemma_digit_char_injective((a % 10) as int, (b % 10) as int);
        assert(decimal(a).drop_last() =~= decimal(a / 10));
        assert(decimal(b).drop_last() =~= decimal(b / 10));
        lemma_decimal_injective(a / 10, b / 10);
    }
}

/// A marker holds its `{` in front only, and no `/`.
proof fn lemma_marker_shape(n: nat)
    ensures
        marker(n).len() >= 3,
        marker(n)[0] == '{',
        forall|j: int| 1 <= j < marker(n).len() ==> #[trigger] marker(n)[j] != '{',
        forall|j: int| 0 <= j < marker(n).len() ==> #[trigger] marker(n)[j] != '/',
        forall|j: int| 0 <= j < marker(n).len() ==> #[trigger] marker(n)[j] != '?',
{
    lemma_decimal_digits(n);
    let d = decimal(n);
    assert forall|j: int| 1 <= j < marker(n).len() implies #[trigger] marker(n)[j] != '{' by {
        if j <= d.len() {
            assert(marker(n)[j] == d[j - 1]);
        }
    }
    assert forall|j: int| 0 <= j < marker(n).len() implies #[trigger] marker(n)[j] != '/' by {
        if 1 <= j <= d.len() {
            assert(marker(n)[j] == d[j - 1]);
        }
    }
    assert forall|j: int| 0 <= j < marker(n).len() implies #[trigger] marker(n)[j] != '?' by {
        if 1 <= j <= d.len() {
            assert(marker(n)[j] == d[j - 1]);
        }
    }
}

/// A marker is left as it is when another one is replaced.
proof fn lemma_other_marker(j: nat, k: nat, v: Seq<char>)
    requires
        j != k,
    ensures
        replace_all(marker(j), marker(k), v) == marker(j),
{
    lemma_marker_shape(j);
    lemma_marker_shape(k);
    lemma_decimal_digits(j);
    lemma_decimal_digits(k);
    let mj = marker(j);
    let mk = marker(k);
    let dj = decimal(j);
    let dk = decimal(k);
    if starts(mj, mk) {
        let p = mj.subrange(0, mk.len() as int);
        if dk.len() == dj.len() {
            assert(dj =~= mj.subrange(1, dj.len() as int + 1));
            assert(dk =~= mk.subrange(1, dk.len() as int + 1));
            assert(dj =~= dk);
            lemma_decimal_injective(j, k);
        } else if dk.len() < dj.len() {
            assert(mk[dk.len() as int + 1] == '}');
            assert(p[dk.len() as int + 1] == mj[dk.len() as int + 1]);
            assert(mj[dk.len() as int + 1] == dj[dk.len() as int]);
            assert(is_digit(dj[dk.len() as int]));
        }
    }
    let rest = mj.skip(1);
    lemma_replace_absent(rest, mk, v);
    assert(seq![mj[0]] + rest =~= mj);
}

/// The `i`-th segment once the first `k` identifiers are put back: an
/// all-digit segment holds the identifier of its rank when that rank is put
/// back, its marker otherwise; another segment stays.
pub open spec fn piece_at(segs: Seq<Seq<char>>, ids: Seq<i64>, k: int, i: int) -> Seq<char> {
    if is_number(segs[i]) {
        let o = numbers_in(segs.take(i)) + 1;
        if o <= k {
            signed_decimal(ids[o - 1] as int)
        } else {
            marker(o as nat)
        }
    } else {
        segs[i]
    }
}

pub open spec fn pieces(segs: Seq<Seq<char>>, ids: Seq<i64>, k: int) -> Seq<Seq<char>> {
    Seq::new(segs.len(), |i: int| piece_at(segs, ids, k, i))
}

/// The identifiers write back, in order, the all-digit segments.
pub open spec fn identifiers_of(segs: Seq<Seq<char>>, ids: Seq<i64>) -> bool {
    &&& ids.len() == numbers_in(segs)
    &&& forall|i: int|
        0 <= i < segs.len() && is_number(segs[i]) ==> signed_decimal(
            ids[numbers_in(segs.take(i)) as int] as int,
        ) == #[trigger] segs[i]
}

/// The path of an address: what stands before its first `?`.
pub open spec fn path_of(url: Seq<char>) -> Seq<char> {
    if exists|p: int| query_mark(url, p) {
        url.subrange(0, choose|p: int| query_mark(url, p))
    } else {
        url
    }
}

/// No text holds a `{`.
pub open spec fn without_brace(s: Seq<char>) -> bool {
    forall|j: int| 0 <= j < s.len() ==> s[j] != '{'
}

proof fn lemma_numbers_step(segs: Seq<Seq<char>>, i: int)
    requires
        0 <= i < segs.len(),
    ensures
        numbers_in(segs.take(i + 1)) == numbers_in(segs.take(i)) + if is_number(segs[i]) {
            1nat
        } else {
            0nat
        },
{
    assert(segs.take(i + 1).drop_last() =~= segs.take(i));
    assert(segs.take(i + 1).last() == segs[i]);
}

proof fn lemma_numbers_prefix(segs: Seq<Seq<char>>, i: int)
    requires
        0 <= i <= segs.len(),
    ensures
        numbers_in(segs.take(i)) <= numbers_in(segs),
    decreases segs.len() - i,
{
    if i == segs.len() {
        assert(segs.take(i) =~= segs);
    } else {
        lemma_numbers_step(segs, i);
        lemma_numbers_prefix(segs, i + 1);
    }
}

proof fn lemma_marked_at(segs: Seq<Seq<char>>, i: int)
    requires
        0 <= i < segs.len(),
    ensures
        marked(segs)[i] == if is_number(segs[i]) {
            marker(numbers_in(segs.take(i)) + 1)
        } else {
            segs[i]
        },
    decreases segs.len(),
{
    let before = segs.drop_last();
    lemma_marked_len(before);
    if i < segs.len() - 1 {
        lemma_marked_at(before, i);
        assert(before.take(i) =~= segs.take(i));
        assert(before[i] == segs[i]);
    } else {
        assert(segs.take(i) =~= before);
    }
}

proof fn lemma_signed_decimal_shape(v: int)
    ensures
        without_brace(signed_decimal(v)),
{
    if v < 0 {
        lemma_decimal_digits((-v) as nat);
        let d = decimal((-v) as nat);
        assert forall|j: int| 0 <= j < signed_decimal(v).len() implies signed_decimal(v)[j] != '{' by {
            if j > 0 {
                assert(signed_decimal(v)[j] == d[j - 1]);
            }
        }
    } else {
        lemma_decimal_digits(v as nat);
    }
}

proof fn lemma_split_without_brace(s: Seq<char>, c: char)
    requires
        without_brace(s),
    ensures
        forall|i: int| 0 <= i < split_on(s, c).len() ==> without_brace(#[trigger] split_on(s, c)[i]),
    decreases s.len(),
{
    if s.len() > 0 {
        let before = split_on(s.drop_last(), c);
        assert(without_brace(s.drop_last()));
        lemma_split_without_brace(s.drop_last(), c);
        crate::text::lemma_split_nonempty(s.drop_last(), c);
        if s.last() != c {
            let last = before.last().push(s.last());
            assert(without_brace(before[before.len() - 1]));
            assert(without_brace(last));
            assert forall|i: int| 0 <= i < split_on(s, c).len() implies without_brace(#[trigger] split_on(s, c)[i]) by {
                if i < before.len() - 1 {
                    assert(split_on(s, c)[i] == before[i]);
                }
            }
        } else {
            assert forall|i: int| 0 <= i < split_on(s, c).len() implies without_brace(#[trigger] split_on(s, c)[i]) by {
                if i < before.len() {
                    assert(split_on(s, c)[i] == before[i]);
                }
            }
        }
    }
}

/// Putting back the `k`-th identifier turns the pieces with `k - 1` put
/// back into those with `k`.
proof fn lemma_pieces_step(segs: Seq<Seq<char>>, ids: Seq<i64>, k: int)
    requires
        1 <= k <= ids.len(),
        forall|i: int| 0 <= i < segs.len() ==> without_brace(#[trigger] segs[i]) || is_number(segs[i]),
    ensures
        replaced_parts(pieces(segs, ids, k - 1), marker(k as nat), signed_decimal(ids[k - 1] as int))
            == pieces(segs, ids, k),
{
    let m = marker(k as nat);
    let v = signed_decimal(ids[k - 1] as int);
    lemma_marker_shape(k as nat);
    let r = replaced_parts(pieces(segs, ids, k - 1), m, v);
    assert forall|i: int| 0 <= i < segs.len() implies #[trigger] r[i] == pieces(segs, ids, k)[i] by {
        let p = piece_at(segs, ids, k - 1, i);
        assert(r[i] == replace_all(p, m, v));
        if is_number(segs[i]) {
            let o = numbers_in(segs.take(i)) + 1;
            if o < k {
                lemma_signed_decimal_shape(ids[o - 1] as int);
                lemma_replace_absent(p, m, v);
            } else if o == k {
                lemma_replace_whole(m, v);
            } else {
                lemma_other_marker(o as nat, k as nat, v);
            }
        } else {
            lemma_replace_absent(p, m, v);
        }
    }
    assert(r =~= pieces(segs, ids, k));
}

/// Filling the first `k` markers of the generalised path, with what follows
/// it, gives the pieces with `k` identifiers put back.
proof fn lemma_filled_pieces(segs: Seq<Seq<char>>, ids: Seq<i64>, tail: Seq<char>, k: int)
    requires
        0 <= k <= ids.len(),
        forall|i: int| 0 <= i < segs.len() ==> without_brace(#[trigger] segs[i]) || is_number(segs[i]),
        without_brace(tail),
        tail.len() > 0 ==> tail[0] == '?',
    ensures
        filled(join_with(marked(segs), '/') + tail, ids, k) == join_with(pieces(segs, ids, k), '/') + tail,
    decreases k,
{
    if k == 0 {
        lemma_marked_len(segs);
        assert forall|i: int| 0 <= i < segs.len() implies #[trigger] marked(segs)[i] == pieces(segs, ids, 0)[i] by {
            lemma_marked_at(segs, i);
        }
        assert(marked(segs) =~= pieces(segs, ids, 0));
    } else {
        lemma_filled_pieces(segs, ids, tail, k - 1);
        let m = marker(k as nat);
        let v = signed_decimal(ids[k - 1] as int);
        lemma_marker_shape(k as nat);
        let a = join_with(pieces(segs, ids, k - 1), '/');
        if tail.len() > 0 {
            assert((a + tail)[a.len() as int] == '?');
            lemma_no_straddle(a, tail, m, a.len() as int);
            lemma_replace_concat(a, tail, m, v);
        } else {
            assert(a + tail =~= a);
            assert(join_with(pieces(segs, ids, k), '/') + tail =~= join_with(pieces(segs, ids, k), '/'));
        }
        lemma_replace_absent(tail, m, v);
        lemma_replace_join(pieces(segs, ids, k - 1), m, v);
        lemma_pieces_step(segs, ids, k);
    }
}

/// Filling the markers of a generalised address with the identifiers that
/// its all-digit path segments wrote gives the address back, for an address
/// without any `{` (a `{` of its own would be read as a marker).
pub proof fn filling_a_generalized_address_gives_it_back(url: Seq<char>, ids: Seq<i64>)
    requires
        without_brace(url),
        identifiers_of(split_on(path_of(url), '/'), ids),
    ensures
        filled(generalized(url), ids, ids.len() as int) == url,
{
    let path = path_of(url);
    let segs = split_on(path, '/');
    let tail = if exists|p: int| query_mark(url, p) {
        let p = choose|p: int| query_mark(url, p);
        seq!['?'] + url.subrange(p + 1, url.len() as int)
    } else {
        Seq::<char>::empty()
    };
    if exists|p: int| query_mark(url, p) {
        let p = choose|p: int| query_mark(url, p);
        assert(generalized(url) =~= join_with(marked(segs), '/') + tail);
        assert(path + tail =~= url);
        assert(without_brace(path));
    } else {
        assert(generalized(url) =~= join_with(marked(segs), '/') + tail);
        assert(path + tail =~= url);
    }
    lemma_split_without_brace(path, '/');
    lemma_filled_pieces(segs, ids, tail, ids.len() as int);
    assert forall|i: int| 0 <= i < segs.len() implies #[trigger] pieces(segs, ids, ids.len() as int)[i] == segs[i] by {
        if is_number(segs[i]) {
            lemma_numbers_step(segs, i);
            lemma_numbers_prefix(segs, i + 1);
        }
    }
    assert(pieces(segs, ids, ids.len() as int) =~= segs);
    lemma_split_join(path, '/');
}

} // verus!
