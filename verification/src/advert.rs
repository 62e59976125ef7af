//! Recognising the charger from its BLE advertising data: the local name it
//! advertises, and whether that name marks a Renogy BT device.
use crate::renogy::{is_renogy_name, is_renogy_name_spec};
use trouble_host::advertise::AdStructure;
use vstd::prelude::*;
use vstd::string::StringSliceAdditionalSpecFns;
use vstd::utf8::{decode_utf8, encode_utf8_decode_utf8, valid_utf8};

verus! {

/// The advertising structures that `trouble_host::advertise::AdStructure::decode`
/// yields for `data`, in order: `None` for an item that failed to decode,
/// `Some(Some(bytes))` for a complete or shortened local name, `Some(None)`
/// for any other structure.
pub uninterp spec fn adv_structures(data: Seq<u8>) -> Seq<Option<Option<Seq<u8>>>>;

/// An exec decoded item as a plain value.
pub open spec fn ad_item_view(item: Option<Option<Vec<u8>>>) -> Option<Option<Seq<u8>>> {
    match item {
        None => None,
        Some(None) => Some(None),
        Some(Some(bytes)) => Some(Some(bytes@)),
    }
}

/// Decodes advertising data with `AdStructure::decode` (trouble-host),
/// keeping of each item only whether it failed, whether it is a local name
/// (complete or shortened), and the name's bytes. Trusted: the items are
/// the named decode of `data`, one for one and in order.
#[verifier::external_body]
fn decode_adv(data: &[u8]) -> (items: Vec<Option<Option<Vec<u8>>>>)
    ensures
        items@.map_values(|item: Option<Option<Vec<u8>>>| ad_item_view(item)) == adv_structures(
            data@,
        ),
{
    AdStructure::decode(data).map(|item| match item {
        Ok(AdStructure::CompleteLocalName(name)) => Some(Some(name.to_vec())),
        Ok(AdStructure::ShortenedLocalName(name)) => Some(Some(name.to_vec())),
        Ok(_) => Some(None),
        Err(_) => None,
    }).collect()
}

/// `core::str::from_utf8`, which returns the string exactly when the bytes
/// are valid UTF-8. Trusted: `Some` exactly for valid UTF-8 (vstd's
/// definition), and then the string's UTF-8 encoding is the input bytes.
#[verifier::external_body]
fn utf8_str(bytes: &[u8]) -> (text: Option<&str>)
    ensures
        text is Some <==> valid_utf8(bytes@),
        text matches Some(t) ==> t.spec_bytes() == bytes@,
{
    core::str::from_utf8(bytes).ok()
}

/// The last local name among decoded advertising structures; items that
/// failed to decode are skipped.
pub open spec fn last_local_name(items: Seq<Option<Option<Seq<u8>>>>) -> Option<Seq<u8>>
    decreases items.len(),
{
    if items.len() == 0 {
        None
    } else {
        match items.last() {
            Some(Some(name)) => Some(name),
            _ => last_local_name(items.drop_last()),
        }
    }
}

/// Whether a decoded item is a local name.
pub open spec fn is_local_name(item: Option<Option<Seq<u8>>>) -> bool {
    item matches Some(Some(_))
}

/// Only local names count: appending an item that is not a local name (a
/// decode error or any other structure) leaves the name as it was, and
/// appending a local name makes it the name.
pub proof fn lemma_last_local_name_push(
    items: Seq<Option<Option<Seq<u8>>>>,
    item: Option<Option<Seq<u8>>>,
)
    ensures
        !is_local_name(item) ==> last_local_name(items.push(item)) == last_local_name(items),
        item matches Some(Some(n)) ==> last_local_name(items.push(item)) == Some(n),
{
    assert(items.push(item).drop_last() =~= items);
}

/// The name is the last local name among all items: when there is one, it
/// stands at some index and no local name follows it; when there is none,
/// no item is a local name.
pub proof fn lemma_last_local_name_is_last(items: Seq<Option<Option<Seq<u8>>>>)
    ensures
        last_local_name(items) matches Some(n) ==> exists|k: int|
            0 <= k < items.len() && items[k] == Some(Some(n)) && forall|j: int|
                k < j < items.len() ==> !is_local_name(#[trigger] items[j]),
        last_local_name(items) is None ==> forall|j: int|
            0 <= j < items.len() ==> !is_local_name(#[trigger] items[j]),
    decreases items.len(),
{
    if items.len() > 0 {
        let init = items.drop_last();
        lemma_last_local_name_is_last(init);
        let k_last = items.len() - 1;
        match items.last() {
            Some(Some(n)) => {
                assert(items[k_last] == Some(Some(n)));
            },
            _ => {
                assert(!is_local_name(items[k_last]));
                if let Some(n) = last_local_name(init) {
                    let k = choose|k: int|
                        0 <= k < init.len() && init[k] == Some(Some(n)) && forall|j: int|
                            k < j < init.len() ==> !is_local_name(#[trigger] init[j]);
                    assert(items[k] == Some(Some(n)));
                    assert forall|j: int| k < j < items.len() implies !is_local_name(
                        #[trigger] items[j],
                    ) by {
                        if j < init.len() {
                            assert(items[j] == init[j]);
                        }
                    }
                } else {
                    assert forall|j: int| 0 <= j < items.len() implies !is_local_name(
                        #[trigger] items[j],
                    ) by {
                        if j < init.len() {
                            assert(items[j] == init[j]);
                        }
                    }
                }
            },
        }
    }
}

/// Structures that are not local names do not change the advertised name:
/// when one payload decodes to the items of another with a non-name item
/// appended (flags, manufacturer data, a decode error), both advertise the
/// same name; when the appended item is a local name, it is the name.
pub proof fn lemma_non_name_keeps_advertised_name(
    data: Seq<u8>,
    more: Seq<u8>,
    item: Option<Option<Seq<u8>>>,
)
    ensures
        adv_structures(more) == adv_structures(data).push(item) && !is_local_name(item)
            ==> advertised_name_spec(more) == advertised_name_spec(data),
        adv_structures(more) == adv_structures(data).push(item) ==> (item matches Some(Some(n))
            ==> last_local_name(adv_structures(more)) == Some(n)),
{
    lemma_last_local_name_push(adv_structures(data), item);
}

/// The name a device advertises: its last local name, when that is valid
/// UTF-8.
pub open spec fn advertised_name_spec(data: Seq<u8>) -> Option<Seq<char>> {
    match last_local_name(adv_structures(data)) {
        Some(bytes) => if valid_utf8(bytes) {
            Some(decode_utf8(bytes))
        } else {
            None
        },
        None => None,
    }
}

/// The name advertised in `data` (the last complete or shortened local
/// name), or `None` when there is none or it is not valid UTF-8.
pub fn advertised_name(data: &[u8]) -> (name: Option<String>)
    ensures
        match name {
            Some(s) => advertised_name_spec(data@) == Some(s@),
            None => advertised_name_spec(data@) is None,
        },
{
    let items = decode_adv(data);
    let ghost view = adv_structures(data@);
    let mut last: Option<usize> = None;
    let mut i: usize = 0;
    assert(view.take(0) =~= Seq::<Option<Option<Seq<u8>>>>::empty());
    while i < items.len()
        invariant
            i <= items@.len(),
            view == items@.map_values(|item: Option<Option<Vec<u8>>>| ad_item_view(item)),
            match last {
                None => last_local_name(view.take(i as int)) is None,
                Some(k) => {
                    &&& k < i
                    &&& items@[k as int] matches Some(Some(v))
                    &&& last_local_name(view.take(i as int)) == Some(v@)
                },
            },
        decreases items@.len() - i,
    {
        assert(view.take(i + 1).drop_last() =~= view.take(i as int));
        assert(view.take(i + 1).last() == ad_item_view(items@[i as int]));
        match &items[i] {
            Some(Some(_)) => {
                last = Some(i);
            },
            _ => {},
        }
        i = i + 1;
    }
    assert(view.take(items@.len() as int) =~= view);
    match last {
        None => None,
        Some(k) => match &items[k] {
            Some(Some(bytes)) => match utf8_str(bytes.as_slice()) {
                Some(text) => {
                    proof {
                        encode_utf8_decode_utf8(text@);
                    }
                    Some(text.to_owned())
                },
                None => None,
            },
            _ => None,
        },
    }
}

/// Whether advertising data marks a Renogy BT device: its advertised name
/// starts with the Renogy prefix.
pub open spec fn is_renogy_adv_spec(data: Seq<u8>) -> bool {
    match advertised_name_spec(data) {
        Some(name) => is_renogy_name_spec(name),
        None => false,
    }
}

/// True when the name advertised in `data` is valid UTF-8 and starts with
/// the Renogy prefix.
pub fn is_renogy_adv(data: &[u8]) -> (found: bool)
    ensures
        found == is_renogy_adv_spec(data@),
{
    match advertised_name(data) {
        Some(name) => is_renogy_name(name.as_str()),
        None => false,
    }
}

} // verus!
