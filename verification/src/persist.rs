//! Persistence of the value dictionary: the whole dictionary is rewritten to
//! one binary blob after every insert and read back at startup. The blob is
//! a binary encoding of the identifier-to-value pairs; entries whose
//! identifier is not five alphabet symbols are dropped on load, and of two
//! entries claiming one identifier the later wins, as in a map built by
//! inserting them in order.
use vstd::prelude::*;

use crate::dict::{
    dict_wf, get_value, get_value_from, has_id, is_valid_id, lemma_get_value_at,
    lemma_get_value_stable, lemma_has_id_push, wf_id, DictEntry, Dictionary,
};
use crate::storage::Storage;

verus! {

/// What bincode's encoding of a vector of string pairs is: a function of the
/// pairs alone.
pub uninterp spec fn dict_blob_of(pairs: Seq<(Seq<char>, Seq<char>)>) -> Seq<u8>;

/// What bincode's decoding of a byte blob into a vector of string pairs is:
/// a function of the bytes alone, absent when the blob does not parse.
pub uninterp spec fn dict_pairs_of(blob: Seq<u8>) -> Option<Seq<(Seq<char>, Seq<char>)>>;

/// Relies on bincode::serialize for a vector of string pairs: it writes the
/// fixed-width encoding into a growing byte vector and has no failure path
/// for this type; the encoding depends on the pairs alone, and
/// bincode::deserialize of that encoding yields the pairs back.
#[verifier::external_body]
fn encode_pairs(pairs: &Vec<(String, String)>) -> (r: Vec<u8>)
    ensures
        r@ == dict_blob_of(pairs.deep_view()),
        dict_pairs_of(r@) == Some(pairs.deep_view()),
{
    bincode::serialize(pairs).unwrap()
}

/// Relies on bincode::deserialize for a vector of string pairs: the decoding
/// depends on the bytes alone.
#[verifier::external_body]
fn decode_pairs(blob: &Vec<u8>) -> (r: Option<Vec<(String, String)>>)
    ensures
        match r {
            Some(pairs) => dict_pairs_of(blob@) == Some(pairs.deep_view()),
            None => dict_pairs_of(blob@) is None,
        },
{
    bincode::deserialize(blob.as_slice()).ok()
}

/// The value an identifier carries in a list of stored pairs: its last
/// occurrence, as a map built by inserting the pairs in order would hold.
pub open spec fn pair_value(pairs: Seq<(Seq<char>, Seq<char>)>, id: Seq<char>) -> Option<Seq<char>>
    decreases pairs.len(),
{
    if pairs.len() == 0 {
        None
    } else if pairs.last().0 == id {
        Some(pairs.last().1)
    } else {
        pair_value(pairs.drop_last(), id)
    }
}

/// What loading stored pairs yields: a well-formed dictionary that knows
/// exactly the well-formed identifiers the pairs mention, each resolving to
/// the value of its last pair.
pub open spec fn loaded_dict(pairs: Seq<(Seq<char>, Seq<char>)>, d: Seq<DictEntry>) -> bool {
    &&& dict_wf(d)
    &&& forall|id: Seq<char>|
        #[trigger] has_id(d, id) <==> (wf_id(id) && pair_value(pairs, id) is Some)
    &&& forall|id: Seq<char>|
        #[trigger] has_id(d, id) ==> get_value(d, id) == pair_value(pairs, id)
}

/// Prepending a pair gives an identifier the value it already carried, or
/// the prepended value where it carried none.
proof fn lemma_pair_value_cons(
    x: (Seq<char>, Seq<char>),
    pairs: Seq<(Seq<char>, Seq<char>)>,
    id: Seq<char>,
)
    ensures
        pair_value(seq![x] + pairs, id) == if pair_value(pairs, id) is Some {
            pair_value(pairs, id)
        } else if x.0 == id {
            Some(x.1)
        } else {
            Option::<Seq<char>>::None
        },
    decreases pairs.len(),
{
    let whole = seq![x] + pairs;
    assert(whole.len() == pairs.len() + 1);
    if pairs.len() == 0 {
        assert(whole.last() == x);
        assert(whole.drop_last() =~= Seq::<(Seq<char>, Seq<char>)>::empty());
        assert(pair_value(Seq::<(Seq<char>, Seq<char>)>::empty(), id) is None);
        assert(pair_value(whole, id) == if x.0 == id {
            Some(x.1)
        } else {
            Option::<Seq<char>>::None
        });
    } else {
        assert(whole.last() == pairs.last());
        assert(whole.drop_last() =~= seq![x] + pairs.drop_last());
        lemma_pair_value_cons(x, pairs.drop_last(), id);
        if pairs.last().0 == id {
            assert(pair_value(whole, id) == Some(pairs.last().1));
            assert(pair_value(pairs, id) == Some(pairs.last().1));
        } else {
            assert(pair_value(whole, id) == pair_value(seq![x] + pairs.drop_last(), id));
            assert(pair_value(pairs, id) == pair_value(pairs.drop_last(), id));
        }
    }
}

/// Build the in-memory dictionary from stored pairs: pairs whose identifier
/// is not five alphabet symbols are dropped, and of two pairs claiming one
/// identifier the later wins, as in a map built by inserting them in order.
fn dict_from_pairs(pairs: &Vec<(String, String)>) -> (d: Dictionary)
    ensures
        d.wf(),
        loaded_dict(pairs.deep_view(), d.entries@),
{
    let mut d = Dictionary::empty();
    let ghost pp = pairs.deep_view();
    let mut k: usize = pairs.len();
    proof {
        assert(pp.skip(k as int) =~= Seq::<(Seq<char>, Seq<char>)>::empty());
    }
    while k > 0
        invariant
            pp == pairs.deep_view(),
            pp.len() == pairs@.len(),
            k <= pairs@.len(),
            dict_wf(d.entries@),
            forall|id: Seq<char>|
                #[trigger] has_id(d.entries@, id) <==> (wf_id(id) && pair_value(
                    pp.skip(k as int),
                    id,
                ) is Some),
            forall|id: Seq<char>|
                #[trigger] has_id(d.entries@, id) ==> get_value(d.entries@, id) == pair_value(
                    pp.skip(k as int),
                    id,
                ),
        decreases k,
    {
        k = k - 1;
        let id = pairs[k].0.clone();
        let value = pairs[k].1.clone();
        let ghost x = pp[k as int];
        proof {
            assert(pp.skip(k as int) =~= seq![x] + pp.skip(k + 1));
            assert(x.0 == id@ && x.1 == value@);
        }
        if is_valid_id(&id) && !d.contains_id(&id) {
            let entry = DictEntry { id, value };
            let ghost dpre = d.entries@;
            d.entries.push(entry);
            proof {
                let dnew = d.entries@;
                assert(dnew =~= dpre.push(entry));
                assert forall|i: int, j: int|
                    0 <= i < j < dnew.len() implies dnew[i].id@ != dnew[j].id@ by {
                    if j == dpre.len() {
                        assert(has_id(dpre, dnew[i].id@));
                    }
                }
                lemma_get_value_at(dnew, dpre.len() as int);
                assert forall|id2: Seq<char>| #[trigger]
                    has_id(dnew, id2) implies (wf_id(id2) && pair_value(
                    pp.skip(k as int),
                    id2,
                ) is Some) && get_value(dnew, id2) == pair_value(pp.skip(k as int), id2) by {
                    lemma_has_id_push(dpre, entry, id2);
                    lemma_pair_value_cons(x, pp.skip(k + 1), id2);
                    if has_id(dpre, id2) {
                        lemma_get_value_stable(dpre, entry, id2);
                    }
                }
                assert forall|id2: Seq<char>|
                    (wf_id(id2) && pair_value(pp.skip(k as int), id2) is Some) implies #[trigger] has_id(
                    dnew,
                    id2,
                ) by {
                    lemma_has_id_push(dpre, entry, id2);
                    lemma_pair_value_cons(x, pp.skip(k + 1), id2);
                }
            }
        } else {
            proof {
                assert forall|id2: Seq<char>| #[trigger]
                    has_id(d.entries@, id2) implies (wf_id(id2) && pair_value(
                    pp.skip(k as int),
                    id2,
                ) is Some) && get_value(d.entries@, id2) == pair_value(pp.skip(k as int), id2) by {
                    lemma_pair_value_cons(x, pp.skip(k + 1), id2);
                }
                assert forall|id2: Seq<char>|
                    (wf_id(id2) && pair_value(pp.skip(k as int), id2) is Some) implies #[trigger] has_id(
                    d.entries@,
                    id2,
                ) by {
                    lemma_pair_value_cons(x, pp.skip(k + 1), id2);
                }
            }
        }
    }
    proof {
        assert(pp.skip(0) =~= pp);
    }
    d
}

/// The stored form of a dictionary: its identifier-to-value pairs in entry
/// order.
pub open spec fn pairs_of(d: Seq<DictEntry>) -> Seq<(Seq<char>, Seq<char>)> {
    Seq::new(d.len(), |i: int| (d[i].id@, d[i].value@))
}

/// A stored pair resolves like the dictionary it came from: scanning the
/// stored pairs from position `j` finds the same first match as scanning the
/// dictionary's entries from `j`.
proof fn lemma_pairs_resolve(d: Seq<DictEntry>, id: Seq<char>)
    requires
        dict_wf(d),
    ensures
        pair_value(pairs_of(d), id) == get_value(d, id),
    decreases d.len(),
{
    let ps = pairs_of(d);
    if d.len() == 0 {
        assert(get_value_from(d, id, 0) is None);
    } else {
        let dp = d.drop_last();
        assert(ps.last() == (d.last().id@, d.last().value@));
        assert(ps.drop_last() =~= pairs_of(dp));
        assert(dict_wf(dp)) by {
            assert(forall|i: int| 0 <= i < dp.len() ==> dp[i] == d[i]);
        }
        if d.last().id@ == id {
            lemma_get_value_at(d, d.len() - 1);
        } else {
            lemma_pairs_resolve(dp, id);
            assert(d =~= dp.push(d.last()));
            if get_value(dp, id) is Some {
                lemma_get_value_stable(dp, d.last(), id);
            } else {
                lemma_get_value_some_from(dp, id, 0);
                lemma_get_value_some_from(d, id, 0);
                if get_value(d, id) is Some {
                    let w = choose|w: int| 0 <= w < d.len() && d[w].id@ == id;
                    assert(w < d.len() - 1);
                    assert(dp[w].id@ == id);
                }
            }
        }
    }
}

/// An identifier is known exactly when scanning for it finds a value.
proof fn lemma_get_value_some_from(d: Seq<DictEntry>, id: Seq<char>, j: int)
    requires
        0 <= j,
    ensures
        (get_value_from(d, id, j) is Some) <==> exists|i: int|
            j <= i < d.len() && d[i].id@ == id,
    decreases d.len() - j,
{
    if j < d.len() {
        lemma_get_value_some_from(d, id, j + 1);
        if d[j].id@ == id {
            assert(j <= j < d.len() && d[j].id@ == id);
        }
    }
}

/// Saving the dictionary and loading the blob back restores exactly the
/// interning map: the dictionary's own stored pairs load to the same set of
/// known identifiers, each resolving to the value it had. Together with the
/// contracts of save_index and Storage::new, the dictionary map survives the
/// round trip through durable storage.
pub proof fn lemma_dict_blob_round_trip(d: Seq<DictEntry>)
    requires
        dict_wf(d),
    ensures
        loaded_dict(pairs_of(d), d),
{
    assert forall|id: Seq<char>| #[trigger]
        has_id(d, id) implies (wf_id(id) && pair_value(pairs_of(d), id) is Some) && get_value(
        d,
        id,
    ) == pair_value(pairs_of(d), id) by {
        let i = choose|i: int| 0 <= i < d.len() && d[i].id@ == id;
        assert(wf_id(d[i].id@));
        lemma_get_value_some_from(d, id, 0);
        lemma_pairs_resolve(d, id);
    }
    assert forall|id: Seq<char>|
        wf_id(id) && pair_value(pairs_of(d), id) is Some implies #[trigger] has_id(d, id) by {
        lemma_get_value_some_from(d, id, 0);
        lemma_pairs_resolve(d, id);
    }
}

impl Storage {
    /// Start from the persisted dictionary blob, when one was stored and
    /// parses; the catalog starts empty either way, as tables are registered
    /// only by create_table.
    pub fn new(blob: Option<Vec<u8>>) -> (r: Storage)
        ensures
            r.wf(),
            r.tables@.len() == 0,
            match blob {
                None => r.dictionary_index.entries@.len() == 0,
                Some(b) => match dict_pairs_of(b@) {
                    None => r.dictionary_index.entries@.len() == 0,
                    Some(pairs) => loaded_dict(pairs, r.dictionary_index.entries@),
                },
            },
    {
        let dictionary_index = match blob {
            None => Dictionary::empty(),
            Some(b) => match decode_pairs(&b) {
                None => Dictionary::empty(),
                Some(pairs) => dict_from_pairs(&pairs),
            },
        };
        Storage { tables: Vec::new(), dictionary_index }
    }

    /// Serialize the whole dictionary for durable storage; the caller
    /// overwrites the dictionary blob with exactly these bytes after each
    /// insert.
    pub fn save_index(&self) -> (r: Vec<u8>)
        ensures
            r@ == dict_blob_of(pairs_of(self.dictionary_index.entries@)),
            dict_pairs_of(r@) == Some(pairs_of(self.dictionary_index.entries@)),
    {
        let entries = &self.dictionary_index.entries;
        let mut pairs: Vec<(String, String)> = Vec::new();
        let mut k: usize = 0;
        while k < entries.len()
            invariant
                k <= entries@.len(),
                pairs@.len() == k,
                forall|m: int|
                    0 <= m < k ==> #[trigger] pairs.deep_view()[m] == (
                        entries@[m].id@,
                        entries@[m].value@,
                    ),
            decreases entries@.len() - k,
        {
            let ghost prev = pairs.deep_view();
            pairs.push((entries[k].id.clone(), entries[k].value.clone()));
            proof {
                assert(pairs.deep_view() =~= prev.push(
                    (entries@[k as int].id@, entries@[k as int].value@),
                ));
            }
            k = k + 1;
        }
        proof {
            assert(pairs.deep_view() =~= pairs_of(entries@));
        }
        encode_pairs(&pairs)
    }
}

} // verus!
