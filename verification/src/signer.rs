//! The signature of a request: the canonical message built from timestamp,
//! API key, receive window and parameters, authenticated with the secret key.

use crate::digest::{hex_lower, hmac_sha256, hmac_sha256_hex, lemma_hex_lower_injective};
use crate::order::{key_lt, lemma_encode_utf8_injective, lemma_key_lt_total};
use crate::params::{
    distinct_keys, lemma_insert_at, lemma_map_of_is, lemma_map_of_keys, lemma_map_of_values,
    lemma_place_of, lemma_remove_at, lemma_sorted_distinct, lemma_sorted_entries,
    lemma_sorted_entries_of, lemma_update_at, map_of, pairs_view, place_of, sorted_entries, Pair,
    Params,
};
use vstd::prelude::*;
use vstd::string::*;
use vstd::utf8::*;

verus! {

/// Each pair as key, `=`, value; one pair after the other with nothing in
/// between.
pub open spec fn join_pairs(s: Seq<Pair>) -> Seq<char>
    decreases s.len(),
{
    if s.len() == 0 {
        Seq::empty()
    } else {
        join_pairs(s.drop_last()) + s.last().0 + seq!['='] + s.last().1
    }
}

/// The text that is signed: timestamp, API key and receive window, followed
/// by the parameters by ascending key.
pub open spec fn canonical_message(
    timestamp: Seq<char>,
    api_key: Seq<char>,
    recv_window: Seq<char>,
    params: Map<Seq<char>, Seq<char>>,
) -> Seq<char> {
    timestamp + api_key + recv_window + join_pairs(sorted_entries(params))
}

/// The bytes handed to the authentication code: the canonical message in
/// UTF-8.
pub open spec fn signing_input(
    timestamp: Seq<char>,
    api_key: Seq<char>,
    recv_window: Seq<char>,
    params: Map<Seq<char>, Seq<char>>,
) -> Seq<u8> {
    encode_utf8(canonical_message(timestamp, api_key, recv_window, params))
}

/// The signature: HMAC-SHA256 of the signing input under the UTF-8 bytes of
/// the secret key, in lowercase hexadecimal.
pub open spec fn signature(
    secret_key: Seq<char>,
    api_key: Seq<char>,
    recv_window: Seq<char>,
    params: Map<Seq<char>, Seq<char>>,
    timestamp: Seq<char>,
) -> Seq<char> {
    hex_lower(
        hmac_sha256(
            encode_utf8(secret_key),
            signing_input(timestamp, api_key, recv_window, params),
        ),
    )
}

/// Builds the canonical message.
pub fn base_string(api_key: &str, recv_window: &str, params: &Params, timestamp: &str) -> (r:
    String)
    ensures
        r@ == canonical_message(timestamp@, api_key@, recv_window@, params@),
{
    let mut text = String::from_str(timestamp);
    text.append(api_key);
    text.append(recv_window);
    let entries = params.entries();
    let ghost head = timestamp@ + api_key@ + recv_window@;
    let ghost listing = pairs_view(entries@);
    let mut i: usize = 0;
    while i < entries.len()
        invariant
            i <= entries@.len(),
            listing == pairs_view(entries@),
            text@ == head + join_pairs(listing.take(i as int)),
        decreases entries@.len() - i,
    {
        proof {
            reveal_strlit("=");
            assert(listing.take(i + 1).drop_last() =~= listing.take(i as int));
            assert(listing.take(i + 1).last() == listing[i as int]);
            assert("="@ =~= seq!['=']);
        }
        text.append(entries[i].0.as_str());
        text.append("=");
        text.append(entries[i].1.as_str());
        proof {
            assert(text@ =~= head + join_pairs(listing.take(i + 1)));
        }
        i += 1;
    }
    proof {
        assert(listing.take(i as int) =~= listing);
    }
    text
}

/// Signs a request: the hexadecimal HMAC-SHA256 of the canonical message
/// under the secret key, 64 digits.
pub fn generate_signature(
    secret_key: &str,
    api_key: &str,
    recv_window: &str,
    params: &Params,
    timestamp: &str,
) -> (r: String)
    ensures
        r@ == signature(secret_key@, api_key@, recv_window@, params@, timestamp@),
        r@.len() == 64,
{
    let message = base_string(api_key, recv_window, params, timestamp);
    hmac_sha256_hex(secret_key.as_bytes(), message.as_str().as_bytes())
}

/// Joining two listings one after the other joins their texts.
pub proof fn lemma_join_pairs_concat(a: Seq<Pair>, b: Seq<Pair>)
    ensures
        join_pairs(a + b) == join_pairs(a) + join_pairs(b),
    decreases b.len(),
{
    if b.len() == 0 {
        assert(a + b =~= a);
        assert(join_pairs(a) + join_pairs(b) =~= join_pairs(a));
    } else {
        lemma_join_pairs_concat(a, b.drop_last());
        assert((a + b).drop_last() =~= a + b.drop_last());
        assert((a + b).last() == b.last());
        assert(join_pairs(a + b) =~= join_pairs(a) + join_pairs(b));
    }
}

/// Between the same text before and the same text after, different texts
/// give different wholes.
pub proof fn lemma_middle_differs(
    before: Seq<char>,
    first: Seq<char>,
    second: Seq<char>,
    after: Seq<char>,
)
    requires
        first != second,
    ensures
        before + first + after != before + second + after,
{
    let a = before + first + after;
    let b = before + second + after;
    if a == b {
        assert(a.len() == b.len());
        assert(first.len() == second.len());
        assert forall|i: int| 0 <= i < first.len() implies first[i] == second[i] by {
            assert(a[before.len() + i] == first[i]);
            assert(b[before.len() + i] == second[i]);
        }
        assert(first =~= second);
    }
}

/// Determinism and canonical order: parameters given as pairs in any order
/// stand for the same mapping, and so have the same canonical message and
/// the same signature.
pub proof fn lemma_signature_ignores_order(
    secret_key: Seq<char>,
    api_key: Seq<char>,
    recv_window: Seq<char>,
    first: Seq<Pair>,
    second: Seq<Pair>,
    timestamp: Seq<char>,
)
    requires
        distinct_keys(first),
        distinct_keys(second),
        forall|p: Pair| first.contains(p) <==> second.contains(p),
    ensures
        map_of(first) == map_of(second),
        canonical_message(timestamp, api_key, recv_window, map_of(first)) == canonical_message(
            timestamp,
            api_key,
            recv_window,
            map_of(second),
        ),
        signature(secret_key, api_key, recv_window, map_of(first), timestamp) == signature(
            secret_key,
            api_key,
            recv_window,
            map_of(second),
            timestamp,
        ),
{
    let m = map_of(second);
    lemma_map_of_keys(second);
    lemma_map_of_values(second);
    assert forall|i: int| 0 <= i < first.len() implies m.contains_pair(
        #[trigger] first[i].0,
        first[i].1,
    ) by {
        assert(first.contains(first[i]));
        assert(second.contains(first[i]));
        let j = choose|j: int| 0 <= j < second.len() && second[j] == first[i];
        assert(m.contains_pair(second[j].0, second[j].1));
    }
    assert forall|k: Seq<char>| #[trigger] m.contains_key(k) implies exists|i: int|
        0 <= i < first.len() && #[trigger] first[i].0 == k by {
        let j = choose|j: int| 0 <= j < second.len() && #[trigger] second[j].0 == k;
        assert(second.contains(second[j]));
        assert(first.contains(second[j]));
        let i = choose|i: int| 0 <= i < first.len() && first[i] == second[j];
        assert(first[i].0 == k);
    }
    lemma_map_of_is(first, m);
}

/// Storing two parameters under different keys in either order gives the
/// same signature.
pub proof fn lemma_signature_ignores_insertion_order(
    secret_key: Seq<char>,
    api_key: Seq<char>,
    recv_window: Seq<char>,
    params: Map<Seq<char>, Seq<char>>,
    first: Pair,
    second: Pair,
    timestamp: Seq<char>,
)
    requires
        first.0 != second.0,
    ensures
        signature(
            secret_key,
            api_key,
            recv_window,
            params.insert(first.0, first.1).insert(second.0, second.1),
            timestamp,
        ) == signature(
            secret_key,
            api_key,
            recv_window,
            params.insert(second.0, second.1).insert(first.0, first.1),
            timestamp,
        ),
{
    assert(params.insert(first.0, first.1).insert(second.0, second.1) =~= params.insert(
        second.0,
        second.1,
    ).insert(first.0, first.1));
}

/// A different timestamp gives a different signing input.
pub proof fn lemma_timestamp_changes_signing_input(
    api_key: Seq<char>,
    recv_window: Seq<char>,
    params: Map<Seq<char>, Seq<char>>,
    first: Seq<char>,
    second: Seq<char>,
)
    requires
        first != second,
    ensures
        signing_input(first, api_key, recv_window, params) != signing_input(
            second,
            api_key,
            recv_window,
            params,
        ),
{
    let rest = api_key + recv_window + join_pairs(sorted_entries(params));
    let a = canonical_message(first, api_key, recv_window, params);
    let b = canonical_message(second, api_key, recv_window, params);
    lemma_middle_differs(Seq::empty(), first, second, rest);
    assert(a =~= Seq::<char>::empty() + first + rest);
    assert(b =~= Seq::<char>::empty() + second + rest);
    if encode_utf8(a) == encode_utf8(b) {
        lemma_encode_utf8_injective(a, b);
    }
}

/// A different API key gives a different signing input.
pub proof fn lemma_api_key_changes_signing_input(
    timestamp: Seq<char>,
    recv_window: Seq<char>,
    params: Map<Seq<char>, Seq<char>>,
    first: Seq<char>,
    second: Seq<char>,
)
    requires
        first != second,
    ensures
        signing_input(timestamp, first, recv_window, params) != signing_input(
            timestamp,
            second,
            recv_window,
            params,
        ),
{
    let rest = recv_window + join_pairs(sorted_entries(params));
    let a = canonical_message(timestamp, first, recv_window, params);
    let b = canonical_message(timestamp, second, recv_window, params);
    lemma_middle_differs(timestamp, first, second, rest);
    assert(a =~= timestamp + first + rest);
    assert(b =~= timestamp + second + rest);
    if encode_utf8(a) == encode_utf8(b) {
        lemma_encode_utf8_injective(a, b);
    }
}

/// A different value under one key, all else the same, gives a different
/// signing input.
pub proof fn lemma_value_changes_signing_input(
    timestamp: Seq<char>,
    api_key: Seq<char>,
    recv_window: Seq<char>,
    params: Map<Seq<char>, Seq<char>>,
    key: Seq<char>,
    value: Seq<char>,
)
    requires
        params.dom().finite(),
        params.contains_key(key),
        params[key] != value,
    ensures
        signing_input(timestamp, api_key, recv_window, params.insert(key, value)) != signing_input(
            timestamp,
            api_key,
            recv_window,
            params,
        ),
{
    let old_list = sorted_entries(params);
    lemma_sorted_entries(params);
    lemma_map_of_keys(old_list);
    let i = choose|i: int| 0 <= i < old_list.len() && #[trigger] old_list[i].0 == key;
    lemma_update_at(old_list, i, value);
    let new_list = old_list.update(i, (key, value));
    lemma_sorted_entries_of(new_list);
    assert(sorted_entries(params.insert(key, value)) == new_list);
    assert(old_list[i].1 == params[key]);

    let left = old_list.take(i);
    let right = old_list.skip(i + 1);
    assert(old_list =~= left.push(old_list[i]) + right);
    assert(new_list =~= left.push((key, value)) + right);
    lemma_join_pairs_concat(left.push(old_list[i]), right);
    lemma_join_pairs_concat(left.push((key, value)), right);
    assert(left.push(old_list[i]).drop_last() =~= left);
    assert(left.push((key, value)).drop_last() =~= left);

    let before = timestamp + api_key + recv_window + join_pairs(left) + key + seq!['='];
    let after = join_pairs(right);
    let a = canonical_message(timestamp, api_key, recv_window, params.insert(key, value));
    let b = canonical_message(timestamp, api_key, recv_window, params);
    assert(a =~= before + value + after);
    assert(b =~= before + params[key] + after);
    lemma_middle_differs(before, value, params[key], after);
    if encode_utf8(a) == encode_utf8(b) {
        lemma_encode_utf8_injective(a, b);
    }
}

/// Two signatures are equal exactly when the authentication codes behind
/// them are equal: whether a change of the signing input changes the
/// signature rests on HMAC-SHA256 alone.
pub proof fn lemma_signatures_equal_iff_codes_equal(
    secret_key: Seq<char>,
    api_key: Seq<char>,
    recv_window: Seq<char>,
    first: Map<Seq<char>, Seq<char>>,
    first_timestamp: Seq<char>,
    second: Map<Seq<char>, Seq<char>>,
    second_timestamp: Seq<char>,
)
    ensures
        signature(secret_key, api_key, recv_window, first, first_timestamp) == signature(
            secret_key,
            api_key,
            recv_window,
            second,
            second_timestamp,
        ) <==> hmac_sha256(
            encode_utf8(secret_key),
            signing_input(first_timestamp, api_key, recv_window, first),
        ) == hmac_sha256(
            encode_utf8(secret_key),
            signing_input(second_timestamp, api_key, recv_window, second),
        ),
{
    let a = hmac_sha256(
        encode_utf8(secret_key),
        signing_input(first_timestamp, api_key, recv_window, first),
    );
    let b = hmac_sha256(
        encode_utf8(secret_key),
        signing_input(second_timestamp, api_key, recv_window, second),
    );
    if hex_lower(a) == hex_lower(b) {
        lemma_hex_lower_injective(a, b);
    }
}

/// Of two texts that agree and each start with a stretch free of `=`
/// followed by `=`, the two stretches are the same.
pub proof fn lemma_first_equals_sign(
    first: Seq<char>,
    first_rest: Seq<char>,
    second: Seq<char>,
    second_rest: Seq<char>,
)
    requires
        !first.contains('='),
        !second.contains('='),
        first + seq!['='] + first_rest == second + seq!['='] + second_rest,
    ensures
        first == second,
{
    let a = first + seq!['='] + first_rest;
    let b = second + seq!['='] + second_rest;
    if first.len() < second.len() {
        assert(a[first.len() as int] == '=');
        assert(b[first.len() as int] == second[first.len() as int]);
        assert(second.contains('='));
    }
    if second.len() < first.len() {
        assert(b[second.len() as int] == '=');
        assert(a[second.len() as int] == first[second.len() as int]);
        assert(first.contains('='));
    }
    assert forall|i: int| 0 <= i < first.len() implies first[i] == second[i] by {
        assert(a[i] == first[i]);
        assert(b[i] == second[i]);
    }
    assert(first =~= second);
}

/// The text of a listing that is not empty starts with its first key and
/// `=`.
pub proof fn lemma_join_pairs_front(s: Seq<Pair>)
    requires
        s.len() > 0,
    ensures
        join_pairs(s) == s[0].0 + seq!['='] + (s[0].1 + join_pairs(s.skip(1))),
{
    let one = seq![s[0]];
    assert(s =~= one + s.skip(1));
    lemma_join_pairs_concat(one, s.skip(1));
    assert(one.drop_last() =~= Seq::<Pair>::empty());
    assert(join_pairs(one.drop_last()) =~= Seq::<char>::empty());
    assert(join_pairs(one) =~= s[0].0 + seq!['='] + s[0].1);
    assert(join_pairs(s) =~= s[0].0 + seq!['='] + (s[0].1 + join_pairs(s.skip(1))));
}

/// The text of a listing in three parts.
proof fn lemma_join_three(left: Seq<Pair>, middle: Seq<Pair>, right: Seq<Pair>)
    ensures
        join_pairs(left + middle + right) == join_pairs(left) + join_pairs(middle) + join_pairs(
            right,
        ),
{
    lemma_join_pairs_concat(left + middle, right);
    lemma_join_pairs_concat(left, middle);
}

/// A pair that carries another key in the same place changes the text.
proof fn lemma_renamed_in_place(
    left: Seq<Pair>,
    right: Seq<Pair>,
    key: Seq<char>,
    new_key: Seq<char>,
    value: Seq<char>,
)
    requires
        key != new_key,
    ensures
        join_pairs(left + seq![(key, value)] + right) != join_pairs(
            left + seq![(new_key, value)] + right,
        ),
{
    let one_old = seq![(key, value)];
    let one_new = seq![(new_key, value)];
    lemma_join_three(left, one_old, right);
    lemma_join_three(left, one_new, right);
    lemma_join_pairs_front(one_old);
    lemma_join_pairs_front(one_new);
    let tail = seq!['='] + (value + join_pairs(one_old.skip(1)));
    assert(one_new.skip(1) =~= one_old.skip(1));
    assert(join_pairs(one_old) =~= Seq::<char>::empty() + key + tail);
    assert(join_pairs(one_new) =~= Seq::<char>::empty() + new_key + tail);
    lemma_middle_differs(Seq::empty(), key, new_key, tail);
    lemma_middle_differs(
        join_pairs(left),
        join_pairs(one_old),
        join_pairs(one_new),
        join_pairs(right),
    );
}

/// A pair that moves past the pairs after it, under another key, changes
/// the text, where neither its old key nor the key that follows it holds
/// `=`.
proof fn lemma_renamed_later(
    left: Seq<Pair>,
    between: Seq<Pair>,
    right: Seq<Pair>,
    key: Seq<char>,
    new_key: Seq<char>,
    value: Seq<char>,
)
    requires
        between.len() > 0,
        !key.contains('='),
        !between[0].0.contains('='),
        key != between[0].0,
    ensures
        join_pairs(left + seq![(key, value)] + between + right) != join_pairs(
            left + between + seq![(new_key, value)] + right,
        ),
{
    let one_old = seq![(key, value)];
    let one_new = seq![(new_key, value)];
    lemma_join_three(left, one_old + between, right);
    lemma_join_three(left, between + one_new, right);
    assert(left + one_old + between + right =~= left + (one_old + between) + right);
    assert(left + between + one_new + right =~= left + (between + one_new) + right);
    lemma_join_pairs_concat(one_old, between);
    lemma_join_pairs_concat(between, one_new);
    lemma_join_pairs_front(one_old);
    lemma_join_pairs_front(between);
    let old_middle = join_pairs(one_old + between);
    let new_middle = join_pairs(between + one_new);
    let old_rest = (value + join_pairs(one_old.skip(1))) + join_pairs(between);
    let new_rest = (between[0].1 + join_pairs(between.skip(1))) + join_pairs(one_new);
    assert(old_middle =~= key + seq!['='] + old_rest);
    assert(new_middle =~= between[0].0 + seq!['='] + new_rest);
    if old_middle == new_middle {
        lemma_first_equals_sign(key, old_rest, between[0].0, new_rest);
    }
    lemma_middle_differs(join_pairs(left), old_middle, new_middle, join_pairs(right));
}

/// A pair that moves before the pairs ahead of it, under another key,
/// changes the text, where neither its new key nor the key that it now
/// precedes holds `=`.
proof fn lemma_renamed_earlier(
    left: Seq<Pair>,
    between: Seq<Pair>,
    right: Seq<Pair>,
    key: Seq<char>,
    new_key: Seq<char>,
    value: Seq<char>,
)
    requires
        between.len() > 0,
        !new_key.contains('='),
        !between[0].0.contains('='),
        new_key != between[0].0,
    ensures
        join_pairs(left + between + seq![(key, value)] + right) != join_pairs(
            left + seq![(new_key, value)] + between + right,
        ),
{
    let one_old = seq![(key, value)];
    let one_new = seq![(new_key, value)];
    lemma_join_three(left, between + one_old, right);
    lemma_join_three(left, one_new + between, right);
    assert(left + between + one_old + right =~= left + (between + one_old) + right);
    assert(left + one_new + between + right =~= left + (one_new + between) + right);
    lemma_join_pairs_concat(between, one_old);
    lemma_join_pairs_concat(one_new, between);
    lemma_join_pairs_front(one_new);
    lemma_join_pairs_front(between);
    let old_middle = join_pairs(between + one_old);
    let new_middle = join_pairs(one_new + between);
    let old_rest = (between[0].1 + join_pairs(between.skip(1))) + join_pairs(one_old);
    let new_rest = (value + join_pairs(one_new.skip(1))) + join_pairs(between);
    assert(old_middle =~= between[0].0 + seq!['='] + old_rest);
    assert(new_middle =~= new_key + seq!['='] + new_rest);
    if old_middle == new_middle {
        lemma_first_equals_sign(between[0].0, old_rest, new_key, new_rest);
    }
    lemma_middle_differs(join_pairs(left), old_middle, new_middle, join_pairs(right));
}

/// The listing of a mapping in which one key has been given another name:
/// the old pair leaves its place, and the new pair enters where its key
/// belongs.
proof fn lemma_renamed_listing(
    params: Map<Seq<char>, Seq<char>>,
    key: Seq<char>,
    new_key: Seq<char>,
) -> (places: (int, int))
    requires
        params.dom().finite(),
        params.contains_key(key),
        !params.contains_key(new_key),
    ensures
        0 <= places.0 < sorted_entries(params).len(),
        0 <= places.1 < sorted_entries(params).len(),
        sorted_entries(params)[places.0] == (key, params[key]),
        sorted_entries(params.remove(key).insert(new_key, params[key])) == sorted_entries(
            params,
        ).remove(places.0).insert(places.1, (new_key, params[key])),
{
    let value = params[key];
    let old_list = sorted_entries(params);
    lemma_sorted_entries(params);
    lemma_sorted_distinct(old_list);
    lemma_map_of_keys(old_list);
    lemma_map_of_values(old_list);
    let i = choose|i: int| 0 <= i < old_list.len() && #[trigger] old_list[i].0 == key;
    assert(params.contains_pair(old_list[i].0, old_list[i].1));
    let without = old_list.remove(i);
    lemma_remove_at(old_list, i);
    lemma_map_of_keys(without);
    let p = place_of(without, new_key);
    lemma_place_of(without, new_key);
    assert forall|j: int| p <= j < without.len() implies key_lt(
        new_key,
        #[trigger] without[j].0,
    ) by {
        lemma_key_lt_total(without[j].0, new_key);
        assert(params.remove(key).contains_key(without[j].0));
    }
    lemma_insert_at(without, p, new_key, value);
    lemma_sorted_entries_of(without.insert(p, (new_key, value)));
    (i, p)
}

/// A different name for one parameter, all else the same, gives a different
/// signing input, provided that no key holds the character `=`.
pub proof fn lemma_key_changes_signing_input(
    timestamp: Seq<char>,
    api_key: Seq<char>,
    recv_window: Seq<char>,
    params: Map<Seq<char>, Seq<char>>,
    key: Seq<char>,
    new_key: Seq<char>,
)
    requires
        params.dom().finite(),
        params.contains_key(key),
        !params.contains_key(new_key),
        forall|k: Seq<char>| #[trigger] params.contains_key(k) ==> !k.contains('='),
        !new_key.contains('='),
    ensures
        signing_input(
            timestamp,
            api_key,
            recv_window,
            params.remove(key).insert(new_key, params[key]),
        ) != signing_input(timestamp, api_key, recv_window, params),
{
    let value = params[key];
    let renamed = params.remove(key).insert(new_key, value);
    let head = timestamp + api_key + recv_window;
    let old_list = sorted_entries(params);
    let new_list = sorted_entries(renamed);
    let (i, p) = lemma_renamed_listing(params, key, new_key);
    lemma_sorted_entries(params);
    lemma_sorted_distinct(old_list);
    lemma_map_of_values(old_list);
    let one_old = seq![(key, value)];
    let one_new = seq![(new_key, value)];

    if p == i {
        let left = old_list.take(i);
        let right = old_list.skip(i + 1);
        assert(old_list =~= left + one_old + right);
        assert(new_list =~= left + one_new + right);
        lemma_renamed_in_place(left, right, key, new_key, value);
    } else if p > i {
        let left = old_list.take(i);
        let between = old_list.subrange(i + 1, p + 1);
        let right = old_list.skip(p + 1);
        assert(old_list =~= left + one_old + between + right);
        assert(new_list =~= left + between + one_new + right);
        assert(between[0] == old_list[i + 1]);
        assert(params.contains_pair(old_list[i + 1].0, old_list[i + 1].1));
        assert(old_list[i].0 != old_list[i + 1].0);
        lemma_renamed_later(left, between, right, key, new_key, value);
    } else {
        let left = old_list.take(p);
        let between = old_list.subrange(p, i);
        let right = old_list.skip(i + 1);
        assert(old_list =~= left + between + one_old + right);
        assert(new_list =~= left + one_new + between + right);
        assert(between[0] == old_list[p]);
        assert(params.contains_pair(old_list[p].0, old_list[p].1));
        lemma_renamed_earlier(left, between, right, key, new_key, value);
    }
    assert(join_pairs(old_list) != join_pairs(new_list));
    let a = canonical_message(timestamp, api_key, recv_window, renamed);
    let b = canonical_message(timestamp, api_key, recv_window, params);
    lemma_middle_differs(head, join_pairs(new_list), join_pairs(old_list), Seq::empty());
    assert(a =~= head + join_pairs(new_list) + Seq::<char>::empty());
    assert(b =~= head + join_pairs(old_list) + Seq::<char>::empty());
    if encode_utf8(a) == encode_utf8(b) {
        lemma_encode_utf8_injective(a, b);
    }
}

} // verus!
