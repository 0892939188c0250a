//! Tokens grouped by the classes of their first two bytes.
//!
//! An automaton cannot tell two bytes of one class apart, so that one step decides for all tokens
//! of a group at once.

use crate::automaton::{byte_classes, class_of, class_table, contents, DenseDfa};
use crate::hashing::{map_insert, map_keys, map_remove};
use crate::primitives::{Token, TokenId};
use crate::vocabulary::{contains_id, lists, tokens_entries, Vocabulary, VocabularyView};
use regex_automata::dfa::dense::DFA;
use regex_automata::util::alphabet::ByteClasses;
use rustc_hash::FxHashMap;
use std::cmp::Ordering;
use vstd::prelude::*;

verus! {

/// A token and its identifiers.
pub type Entry<'a> = (&'a Token, &'a Vec<TokenId>);

/// The class of the first byte of a token.
pub open spec fn first_class(dfa: DenseDfa, token: Seq<u8>) -> u32 {
    dfa.class(token[0]) as u32
}

/// The class of the second byte of a token. Tokens of one byte go with those whose second byte
/// is in the first class.
pub open spec fn second_class(dfa: DenseDfa, token: Seq<u8>) -> u32 {
    if token.len() > 1 {
        dfa.class(token[1]) as u32
    } else {
        0
    }
}

/// Whether two tokens are in the same group.
pub open spec fn same_group(dfa: DenseDfa, one: Seq<u8>, other: Seq<u8>) -> bool {
    &&& first_class(dfa, one) == first_class(dfa, other)
    &&& second_class(dfa, one) == second_class(dfa, other)
}

/// The tokens that stand for text and are not empty.
pub open spec fn grouped_tokens(vocabulary: VocabularyView) -> Set<Seq<u8>> {
    Set::new(|token: Seq<u8>| vocabulary.usable(token) && token.len() > 0)
}

/// Whether some byte is in class `class`.
pub open spec fn has_byte(dfa: DenseDfa, class: u32) -> bool {
    exists|byte: u8| #[trigger] dfa.class(byte) == class
}

/// The tokens whose first bytes are in one class, by the class of their second bytes.
pub struct TokenGroup<'a> {
    /// The class of the first bytes.
    pub first_class: u32,
    /// The tokens for each class of second bytes.
    pub members: Vec<(u32, Vec<Entry<'a>>)>,
}

/// Whether `entry` is one of the tokens of `vocabulary` with the given classes.
pub open spec fn is_member(
    dfa: DenseDfa,
    vocabulary: VocabularyView,
    first: u32,
    second: u32,
    entry: Entry,
) -> bool {
    &&& grouped_tokens(vocabulary).contains(entry.0@)
    &&& vocabulary.tokens[entry.0@] == entry.1@
    &&& first_class(dfa, entry.0@) == first
    &&& second_class(dfa, entry.0@) == second
}

/// Whether `entries` runs from the longest token to the shortest.
pub open spec fn longest_first(entries: Seq<Entry>) -> bool {
    forall|i: int, j: int|
        0 <= i < j < entries.len() ==> (#[trigger] entries[i]).0@.len() >= (
        #[trigger] entries[j]).0@.len()
}

/// Whether no token occurs twice in `entries`.
pub open spec fn distinct_tokens(entries: Seq<Entry>) -> bool {
    forall|j: int, k: int|
        0 <= j < k < entries.len() ==> (#[trigger] entries[j]).0@ != (#[trigger] entries[k]).0@
}

/// Whether `list` holds tokens of one first class and of the second class `list.0`, at least one
/// and each of them once.
pub open spec fn is_member_list(
    dfa: DenseDfa,
    vocabulary: VocabularyView,
    first: u32,
    list: (u32, Vec<Entry>),
) -> bool {
    &&& list.0 != 0 ==> has_byte(dfa, list.0)
    &&& list.1@.len() > 0
    &&& distinct_tokens(list.1@)
    &&& longest_first(list.1@)
    &&& forall|k: int|
        0 <= k < list.1@.len() ==> is_member(
            dfa,
            vocabulary,
            first,
            list.0,
            #[trigger] list.1@[k],
        )
}

/// Whether `group` holds tokens of its first class, in one list for each second class.
pub open spec fn is_group(dfa: DenseDfa, vocabulary: VocabularyView, group: TokenGroup) -> bool {
    &&& has_byte(dfa, group.first_class)
    &&& group.members@.len() > 0
    &&& forall|m: int|
        0 <= m < group.members@.len() ==> is_member_list(
            dfa,
            vocabulary,
            group.first_class,
            #[trigger] group.members@[m],
        )
    &&& forall|m: int, n: int|
        0 <= m < n < group.members@.len() ==> (#[trigger] group.members@[m]).0 != (
        #[trigger] group.members@[n]).0
}

/// Whether `token` is one of `entries`.
pub open spec fn holds(entries: Seq<Entry>, token: Seq<u8>) -> bool {
    exists|k: int| 0 <= k < entries.len() && (#[trigger] entries[k]).0@ == token
}

/// Whether `token` occurs in `group`.
pub open spec fn occurs_in(group: TokenGroup, token: Seq<u8>) -> bool {
    exists|m: int|
        0 <= m < group.members@.len() && holds((#[trigger] group.members@[m]).1@, token)
}

/// Whether `groups` holds each token that stands for text and is not empty once, in the group of
/// its classes, and nothing else.
pub open spec fn is_grouping(
    dfa: DenseDfa,
    vocabulary: VocabularyView,
    groups: Seq<TokenGroup>,
) -> bool {
    &&& forall|g: int| 0 <= g < groups.len() ==> is_group(dfa, vocabulary, #[trigger] groups[g])
    &&& forall|g: int, h: int|
        0 <= g < h < groups.len() ==> (#[trigger] groups[g]).first_class != (
        #[trigger] groups[h]).first_class
    &&& forall|token: Seq<u8>| #[trigger]
        grouped_tokens(vocabulary).contains(token) ==> exists|g: int|
            0 <= g < groups.len() && occurs_in(#[trigger] groups[g], token)
}

/// Returns the smallest byte of a class.
pub fn get_representative_byte(classes: &ByteClasses, class: u32) -> (byte: u8)
    requires
        exists|b: u8| #[trigger] class_table(*classes)[b as int] == class,
    ensures
        class_table(*classes)[byte as int] == class,
        forall|b: u8| b < byte ==> #[trigger] class_table(*classes)[b as int] != class,
{
    let mut byte: u8 = 0;
    while class_of(classes, byte) as u32 != class
        invariant
            exists|b: u8| #[trigger] class_table(*classes)[b as int] == class,
            forall|b: u8| b < byte ==> #[trigger] class_table(*classes)[b as int] != class,
        decreases 255 - byte,
    {
        assert(byte < 255) by {
            let b = choose|b: u8| #[trigger] class_table(*classes)[b as int] == class;
            assert(b > byte);
        }
        byte = byte + 1;
    }
    byte
}

/// Whether the first of two tokens goes before, with or behind the second when the longest goes
/// first.
pub fn longer_first(one: &Entry, other: &Entry) -> (order: Ordering)
    ensures
        match order {
            Ordering::Less => one.0@.len() > other.0@.len(),
            Ordering::Equal => one.0@.len() == other.0@.len(),
            Ordering::Greater => one.0@.len() < other.0@.len(),
        },
{
    if one.0.len() > other.0.len() {
        Ordering::Less
    } else if one.0.len() == other.0.len() {
        Ordering::Equal
    } else {
        Ordering::Greater
    }
}

/// `slice::sort_by`: puts the entries into the order that [`longer_first`] gives.
#[verifier::external_body]
fn sort_longest_first(entries: &mut Vec<Entry>)
    ensures
        final(entries)@.to_multiset() == old(entries)@.to_multiset(),
        longest_first(final(entries)@),
{
    entries.sort_by(|one, other| longer_first(one, other))
}

/// The tokens of a first class by the class of their second bytes, for every first class.
type Buckets<'a> = FxHashMap<u32, FxHashMap<u32, Vec<Entry<'a>>>>;

/// The tokens that `buckets` holds for the given classes.
spec fn bucket<'a>(
    buckets: Map<u32, FxHashMap<u32, Vec<Entry<'a>>>>,
    first: u32,
    second: u32,
) -> Seq<Entry<'a>> {
    if buckets.contains_key(first) && buckets[first]@.contains_key(second) {
        buckets[first]@[second]@
    } else {
        Seq::empty()
    }
}

/// Whether `buckets` has only classes of bytes, no bucket is empty, and each holds only tokens of
/// its classes, none of them twice.
spec fn sound_buckets(
    dfa: DenseDfa,
    vocabulary: VocabularyView,
    buckets: Map<u32, FxHashMap<u32, Vec<Entry>>>,
) -> bool {
    &&& forall|first: u32| #[trigger] buckets.contains_key(first) ==> has_byte(dfa, first)
    &&& forall|first: u32, second: u32|
        buckets.contains_key(first) && #[trigger] buckets[first]@.contains_key(second) && second
            != 0 ==> has_byte(dfa, second)
    &&& forall|first: u32| #[trigger]
        buckets.contains_key(first) ==> exists|second: u32| #[trigger]
            buckets[first]@.contains_key(second)
    &&& forall|first: u32, second: u32|
        buckets.contains_key(first) && #[trigger] buckets[first]@.contains_key(second) ==> bucket(
            buckets,
            first,
            second,
        ).len() > 0
    &&& forall|first: u32, second: u32| #[trigger]
        distinct_tokens(bucket(buckets, first, second))
    &&& forall|first: u32, second: u32, k: int|
        0 <= k < bucket(buckets, first, second).len() ==> is_member(
            dfa,
            vocabulary,
            first,
            second,
            #[trigger] bucket(buckets, first, second)[k],
        )
}

/// Whether `token` is in the bucket of its classes.
spec fn in_bucket(
    dfa: DenseDfa,
    buckets: Map<u32, FxHashMap<u32, Vec<Entry>>>,
    token: Seq<u8>,
) -> bool {
    holds(bucket(buckets, first_class(dfa, token), second_class(dfa, token)), token)
}

/// Adds a token to the bucket of the given classes.
fn add_to_bucket<'a>(buckets: &mut Buckets<'a>, first: u32, second: u32, entry: Entry<'a>)
    ensures
        forall|f: u32| #[trigger]
            final(buckets)@.contains_key(f) <==> old(buckets)@.contains_key(f) || f == first,
        forall|f: u32, s: u32|
            final(buckets)@.contains_key(f) ==> (#[trigger] final(buckets)@[f]@.contains_key(s)
                <==> (old(buckets)@.contains_key(f) && old(buckets)@[f]@.contains_key(s)) || (f
                == first && s == second)),
        forall|f: u32, s: u32| #[trigger]
            bucket(final(buckets)@, f, s) == if f == first && s == second {
                bucket(old(buckets)@, f, s).push(entry)
            } else {
                bucket(old(buckets)@, f, s)
            },
{
    let mut second_level: FxHashMap<u32, Vec<Entry<'a>>> = match map_remove(buckets, &first) {
        Some(found) => found,
        None => FxHashMap::default(),
    };
    let mut entries: Vec<Entry<'a>> = match map_remove(&mut second_level, &second) {
        Some(found) => found,
        None => Vec::new(),
    };
    assert(entries@ =~= bucket(old(buckets)@, first, second));
    entries.push(entry);
    map_insert(&mut second_level, second, entries);
    map_insert(buckets, first, second_level);
}

/// Whether `token` is one of the first `n` of `entries`.
spec fn listed_before(entries: Seq<Entry>, n: int, token: Seq<u8>) -> bool {
    exists|j: int| 0 <= j < n && (#[trigger] entries[j]).0@ == token
}

/// Puts each token that stands for text and is not empty into the bucket of its classes.
fn fill_buckets<'a>(dfa: &DFA<Vec<u32>>, vocabulary: &'a Vocabulary) -> (buckets: Buckets<'a>)
    requires
        contents(*dfa).wf(),
    ensures
        sound_buckets(contents(*dfa), vocabulary@, buckets@),
        forall|token: Seq<u8>| #[trigger]
            grouped_tokens(vocabulary@).contains(token) ==> in_bucket(
                contents(*dfa),
                buckets@,
                token,
            ),
{
    let ghost model = contents(*dfa);
    let ghost words = vocabulary@;
    let classes = byte_classes(dfa);
    let eos: TokenId = vocabulary.eos_token_id();
    let entries = tokens_entries(vocabulary.tokens());
    let mut buckets: Buckets<'a> = FxHashMap::default();
    let mut i: usize = 0;
    while i < entries.len()
        invariant
            i <= entries@.len(),
            model == contents(*dfa),
            words == vocabulary@,
            class_table(*classes) == model.classes,
            eos == words.eos,
            lists(entries@, words.tokens),
            sound_buckets(model, words, buckets@),
            forall|f: u32, s: u32, k: int|
                0 <= k < bucket(buckets@, f, s).len() ==> listed_before(
                    entries@,
                    i as int,
                    (#[trigger] bucket(buckets@, f, s)[k]).0@,
                ),
            forall|j: int|
                0 <= j < i && grouped_tokens(words).contains((#[trigger] entries@[j]).0@)
                    ==> in_bucket(model, buckets@, entries@[j].0@),
        decreases entries@.len() - i,
    {
        let (token, ids) = entries[i];
        assert(words.tokens.contains_key(entries@[i as int].0@));
        i = i + 1;
        assert forall|word: Seq<u8>| listed_before(entries@, i - 1, word) implies #[trigger]
            listed_before(entries@, i as int, word) by {
            let j = choose|j: int| 0 <= j < i - 1 && (#[trigger] entries@[j]).0@ == word;
            assert(entries@[j].0@ == word);
        }
        if contains_id(ids, eos) || token.len() == 0 {
            continue;
        }
        let first: u32 = class_of(classes, token[0]) as u32;
        let second: u32 = if token.len() > 1 {
            class_of(classes, token[1]) as u32
        } else {
            0
        };
        let ghost before = buckets@;
        add_to_bucket(&mut buckets, first, second, (token, ids));
        proof {
            assert(is_member(model, words, first, second, (token, ids)));
            assert(model.class(token@[0]) == first);
            assert(second != 0 ==> model.class(token@[1]) == second);
            assert(entries@[i - 1].0@ == token@);
            assert forall|f: u32, s: u32, k: int|
                0 <= k < bucket(buckets@, f, s).len() implies listed_before(
                entries@,
                i as int,
                (#[trigger] bucket(buckets@, f, s)[k]).0@,
            ) by {
                if k < bucket(before, f, s).len() {
                    assert(bucket(buckets@, f, s)[k] == bucket(before, f, s)[k]);
                }
            }
            assert forall|f: u32, s: u32| #[trigger] distinct_tokens(bucket(buckets@, f, s)) by {
                let earlier = bucket(before, f, s);
                assert(distinct_tokens(earlier));
                assert forall|j: int| 0 <= j < earlier.len() implies (
                #[trigger] earlier[j]).0@ != token@ by {
                    assert(listed_before(entries@, i - 1, bucket(before, f, s)[j].0@));
                }
            }
            assert forall|f: u32| #[trigger] buckets@.contains_key(f) implies exists|s: u32|
                #[trigger] buckets@[f]@.contains_key(s) by {
                if f == first {
                    assert(buckets@[f]@.contains_key(second));
                } else {
                    let s = choose|s: u32| #[trigger] before[f]@.contains_key(s);
                    assert(buckets@[f]@.contains_key(s));
                }
            }
            assert forall|f: u32, s: u32|
                buckets@.contains_key(f) && #[trigger] buckets@[f]@.contains_key(s) implies bucket(
                buckets@,
                f,
                s,
            ).len() > 0 by {
                if f != first || s != second {
                    assert(before[f]@.contains_key(s));
                }
            }
            assert forall|f: u32, s: u32, k: int|
                0 <= k < bucket(buckets@, f, s).len() implies is_member(
                model,
                words,
                f,
                s,
                #[trigger] bucket(buckets@, f, s)[k],
            ) by {
                if k < bucket(before, f, s).len() {
                    assert(bucket(buckets@, f, s)[k] == bucket(before, f, s)[k]);
                }
            }
            assert forall|j: int|
                0 <= j < i && grouped_tokens(words).contains((#[trigger] entries@[j]).0@)
                implies in_bucket(model, buckets@, entries@[j].0@) by {
                let word = entries@[j].0@;
                let f = first_class(model, word);
                let s = second_class(model, word);
                if j < i - 1 {
                    let old_entries = bucket(before, f, s);
                    let k = choose|k: int|
                        0 <= k < old_entries.len() && (#[trigger] old_entries[k]).0@ == word;
                    assert(bucket(buckets@, f, s)[k] == bucket(before, f, s)[k]);
                } else {
                    assert(bucket(buckets@, f, s).last().0@ == word);
                }
            }
        }
    }
    proof {
        assert forall|token: Seq<u8>| #[trigger]
            grouped_tokens(words).contains(token) implies in_bucket(model, buckets@, token) by {
            let j = choose|j: int| 0 <= j < entries@.len() && (#[trigger] entries@[j]).0@ == token;
            assert(grouped_tokens(words).contains(entries@[j].0@));
        }
    }
    buckets
}

/// Lists the buckets of one first class, each from the longest token to the shortest.
fn list_members<'a>(second_level: FxHashMap<u32, Vec<Entry<'a>>>) -> (members: Vec<
    (u32, Vec<Entry<'a>>),
>)
    ensures
        forall|m: int|
            0 <= m < members@.len() ==> {
                &&& second_level@.contains_key((#[trigger] members@[m]).0)
                &&& members@[m].1@.to_multiset() == second_level@[members@[m].0]@.to_multiset()
                &&& longest_first(members@[m].1@)
            },
        forall|m: int, n: int|
            0 <= m < n < members@.len() ==> (#[trigger] members@[m]).0 != (#[trigger] members@[n]).0,
        forall|second: u32| #[trigger]
            second_level@.contains_key(second) ==> exists|m: int|
                0 <= m < members@.len() && (#[trigger] members@[m]).0 == second,
{
    let keys = map_keys(&second_level);
    let ghost all = second_level@;
    let mut rest = second_level;
    let mut members: Vec<(u32, Vec<Entry<'a>>)> = Vec::new();
    let mut i: usize = 0;
    proof {
        assert forall|j: int| 0 <= j < keys@.len() implies all.contains_key(#[trigger] keys@[j]) by {
            assert(keys@.to_set().contains(keys@[j]));
        }
    }
    while i < keys.len()
        invariant
            i <= keys@.len(),
            i == members@.len(),
            keys@.no_duplicates(),
            forall|j: int| 0 <= j < keys@.len() ==> all.contains_key(#[trigger] keys@[j]),
            forall|j: int|
                i <= j < keys@.len() ==> rest@.contains_key(#[trigger] keys@[j]) && rest@[keys@[j]]
                    == all[keys@[j]],
            forall|m: int|
                0 <= m < i ==> {
                    &&& (#[trigger] members@[m]).0 == keys@[m]
                    &&& members@[m].1@.to_multiset() == all[keys@[m]]@.to_multiset()
                    &&& longest_first(members@[m].1@)
                },
        decreases keys@.len() - i,
    {
        let second: u32 = keys[i];
        let ghost before = rest@;
        assert(rest@.contains_key(keys@[i as int]));
        if let Some(mut entries) = map_remove(&mut rest, &second) {
            sort_longest_first(&mut entries);
            members.push((second, entries));
        }
        i = i + 1;
        proof {
            assert forall|j: int| i <= j < keys@.len() implies rest@.contains_key(
                #[trigger] keys@[j],
            ) && rest@[keys@[j]] == all[keys@[j]] by {
                assert(keys@[j] != keys@[i - 1]);
            }
        }
    }
    proof {
        assert forall|second: u32| #[trigger] all.contains_key(second) implies exists|m: int|
            0 <= m < members@.len() && (#[trigger] members@[m]).0 == second by {
            assert(keys@.to_set().contains(second));
            let m = choose|m: int| 0 <= m < keys@.len() && keys@[m] == second;
            assert(members@[m].0 == second);
        }
    }
    members
}

/// Groups the tokens that stand for text and are not empty by the classes of their first two
/// bytes, each group from the longest token to the shortest.
pub fn group_tokens<'a>(dfa: &DFA<Vec<u32>>, vocabulary: &'a Vocabulary) -> (groups: Vec<
    TokenGroup<'a>,
>)
    requires
        contents(*dfa).wf(),
    ensures
        is_grouping(contents(*dfa), vocabulary@, groups@),
{
    let ghost model = contents(*dfa);
    let ghost words = vocabulary@;
    let mut rest = fill_buckets(dfa, vocabulary);
    let keys = map_keys(&rest);
    let ghost all = rest@;
    let mut groups: Vec<TokenGroup<'a>> = Vec::new();
    let mut i: usize = 0;
    proof {
        assert forall|j: int| 0 <= j < keys@.len() implies all.contains_key(#[trigger] keys@[j]) by {
            assert(keys@.to_set().contains(keys@[j]));
        }
    }
    while i < keys.len()
        invariant
            i <= keys@.len(),
            i == groups@.len(),
            keys@.no_duplicates(),
            sound_buckets(model, words, all),
            forall|j: int| 0 <= j < keys@.len() ==> all.contains_key(#[trigger] keys@[j]),
            forall|j: int|
                i <= j < keys@.len() ==> rest@.contains_key(#[trigger] keys@[j]) && rest@[keys@[j]]
                    == all[keys@[j]],
            forall|g: int|
                0 <= g < i ==> {
                    &&& (#[trigger] groups@[g]).first_class == keys@[g]
                    &&& is_group(model, words, groups@[g])
                    &&& forall|token: Seq<u8>|
                        first_class(model, token) == keys@[g] && #[trigger] in_bucket(
                            model,
                            all,
                            token,
                        ) ==> occurs_in(groups@[g], token)
                },
        decreases keys@.len() - i,
    {
        let first: u32 = keys[i];
        assert(rest@.contains_key(keys@[i as int]));
        if let Some(second_level) = map_remove(&mut rest, &first) {
            let members = list_members(second_level);
            let ghost listed = members@;
            let group = TokenGroup { first_class: first, members };
            proof {
                assert forall|second: u32| #[trigger]
                    all[first]@.contains_key(second) implies exists|m: int|
                    0 <= m < group.members@.len() && (#[trigger] group.members@[m]).0 == second by {
                    let m = choose|m: int|
                        0 <= m < listed.len() && (#[trigger] listed[m]).0 == second;
                    assert(group.members@[m].0 == second);
                }
                lemma_listed(model, words, all, group);
            }
            groups.push(group);
        }
        i = i + 1;
        proof {
            assert forall|j: int| i <= j < keys@.len() implies rest@.contains_key(
                #[trigger] keys@[j],
            ) && rest@[keys@[j]] == all[keys@[j]] by {
                assert(keys@[j] != keys@[i - 1]);
            }
        }
    }
    proof {
        assert forall|token: Seq<u8>| #[trigger]
            grouped_tokens(words).contains(token) implies exists|g: int|
            0 <= g < groups@.len() && occurs_in(#[trigger] groups@[g], token) by {
            assert(in_bucket(model, all, token));
            let first = first_class(model, token);
            assert(all.contains_key(first));
            assert(keys@.to_set().contains(first));
            let g = choose|g: int| 0 <= g < keys@.len() && keys@[g] == first;
            assert(groups@[g].first_class == keys@[g]);
            assert(occurs_in(groups@[g], token));
        }
    }
    groups
}

/// Sorting entries leaves their number as it is, and distinct tokens distinct.
proof fn lemma_permuted(entries: Seq<Entry>, sorted: Seq<Entry>)
    requires
        entries.to_multiset() == sorted.to_multiset(),
        distinct_tokens(entries),
    ensures
        sorted.len() == entries.len(),
        distinct_tokens(sorted),
{
    entries.to_multiset_ensures();
    sorted.to_multiset_ensures();
    assert(entries.no_duplicates()) by {
        assert forall|j: int, k: int|
            0 <= j < entries.len() && 0 <= k < entries.len() && j != k implies entries[j]
            != entries[k] by {
            if j < k {
                assert(entries[j].0@ != entries[k].0@);
            } else {
                assert(entries[k].0@ != entries[j].0@);
            }
        }
    }
    entries.lemma_multiset_has_no_duplicates();
    sorted.lemma_multiset_has_no_duplicates_conv();
    assert forall|j: int, k: int| 0 <= j < k < sorted.len() implies (#[trigger] sorted[j]).0@ != (
    #[trigger] sorted[k]).0@ by {
        assert(sorted.contains(sorted[j]) && sorted.contains(sorted[k]));
        assert(entries.to_multiset().count(sorted[j]) > 0);
        assert(entries.to_multiset().count(sorted[k]) > 0);
        let a = choose|a: int| 0 <= a < entries.len() && entries[a] == sorted[j];
        let b = choose|b: int| 0 <= b < entries.len() && entries[b] == sorted[k];
        assert(sorted[j] != sorted[k]);
        if a < b {
            assert(entries[a].0@ != entries[b].0@);
        } else {
            assert(entries[b].0@ != entries[a].0@);
        }
    }
}

/// Sorting the buckets of a first class leaves the tokens in them.
proof fn lemma_listed(
    dfa: DenseDfa,
    vocabulary: VocabularyView,
    buckets: Map<u32, FxHashMap<u32, Vec<Entry>>>,
    group: TokenGroup,
)
    requires
        sound_buckets(dfa, vocabulary, buckets),
        buckets.contains_key(group.first_class),
        forall|m: int|
            0 <= m < group.members@.len() ==> {
                &&& buckets[group.first_class]@.contains_key((#[trigger] group.members@[m]).0)
                &&& group.members@[m].1@.to_multiset()
                    == buckets[group.first_class]@[group.members@[m].0]@.to_multiset()
                &&& longest_first(group.members@[m].1@)
            },
        forall|m: int, n: int|
            0 <= m < n < group.members@.len() ==> (#[trigger] group.members@[m]).0 != (
            #[trigger] group.members@[n]).0,
        forall|second: u32| #[trigger]
            buckets[group.first_class]@.contains_key(second) ==> exists|m: int|
                0 <= m < group.members@.len() && (#[trigger] group.members@[m]).0 == second,
    ensures
        is_group(dfa, vocabulary, group),
        forall|token: Seq<u8>|
            first_class(dfa, token) == group.first_class && #[trigger] in_bucket(
                dfa,
                buckets,
                token,
            ) ==> occurs_in(group, token),
{
    let first = group.first_class;
    let some = choose|second: u32| #[trigger] buckets[first]@.contains_key(second);
    assert(buckets[first]@.contains_key(some));
    assert forall|m: int| 0 <= m < group.members@.len() implies is_member_list(
        dfa,
        vocabulary,
        first,
        #[trigger] group.members@[m],
    ) by {
        let list = group.members@[m];
        let entries = bucket(buckets, first, list.0);
        lemma_permuted(entries, list.1@);
        assert forall|k: int| 0 <= k < list.1@.len() implies is_member(
            dfa,
            vocabulary,
            first,
            list.0,
            #[trigger] list.1@[k],
        ) by {
            list.1@.to_multiset_ensures();
            entries.to_multiset_ensures();
            assert(list.1@.contains(list.1@[k]));
            assert(list.1@.to_multiset().count(list.1@[k]) > 0);
            assert(entries.contains(list.1@[k]));
            let j = choose|j: int| 0 <= j < entries.len() && entries[j] == list.1@[k];
            assert(is_member(dfa, vocabulary, first, list.0, bucket(buckets, first, list.0)[j]));
        }
    }
    assert forall|token: Seq<u8>|
        first_class(dfa, token) == first && #[trigger] in_bucket(
            dfa,
            buckets,
            token,
        ) implies occurs_in(group, token) by {
        let second = second_class(dfa, token);
        let entries = bucket(buckets, first, second);
        let k = choose|k: int| 0 <= k < entries.len() && (#[trigger] entries[k]).0@ == token;
        let m = choose|m: int|
            0 <= m < group.members@.len() && (#[trigger] group.members@[m]).0 == second;
        let list = group.members@[m].1@;
        list.to_multiset_ensures();
        entries.to_multiset_ensures();
        assert(entries.contains(entries[k]));
        assert(entries.to_multiset().count(entries[k]) > 0);
        assert(list.contains(entries[k]));
        let j = choose|j: int| 0 <= j < list.len() && list[j] == entries[k];
        assert(list[j].0@ == token);
        assert(holds(group.members@[m].1@, token));
    }
}

/// Every token that has not the end-of-sequence identifier and is not empty, whatever its length and
/// its bytes, is listed with its identifiers under the class of its first byte and the class of its
/// second, or class zero if it has none.
pub proof fn law_tokens_are_grouped(
    dfa: DenseDfa,
    vocabulary: VocabularyView,
    groups: Seq<TokenGroup>,
    token: Seq<u8>,
)
    requires
        is_grouping(dfa, vocabulary, groups),
        vocabulary.tokens.contains_key(token),
        !vocabulary.tokens[token].contains(vocabulary.eos),
        token.len() > 0,
    ensures
        exists|g: int, m: int, k: int|
            #![trigger groups[g].members@[m].1@[k]]
            {
                &&& 0 <= g < groups.len()
                &&& 0 <= m < groups[g].members@.len()
                &&& 0 <= k < groups[g].members@[m].1@.len()
                &&& groups[g].members@[m].1@[k].0@ == token
                &&& groups[g].members@[m].1@[k].1@ == vocabulary.tokens[token]
                &&& groups[g].first_class == dfa.classes[token[0] as int]
                &&& groups[g].members@[m].0 == if token.len() > 1 {
                    dfa.classes[token[1] as int] as u32
                } else {
                    0
                }
            },
{
    assert(grouped_tokens(vocabulary).contains(token));
    let g = choose|g: int| 0 <= g < groups.len() && occurs_in(#[trigger] groups[g], token);
    let group = groups[g];
    assert(is_group(dfa, vocabulary, group));
    let m = choose|m: int|
        0 <= m < group.members@.len() && holds((#[trigger] group.members@[m]).1@, token);
    let list = group.members@[m];
    assert(is_member_list(dfa, vocabulary, group.first_class, list));
    let k = choose|k: int| 0 <= k < list.1@.len() && (#[trigger] list.1@[k]).0@ == token;
    assert(is_member(dfa, vocabulary, group.first_class, list.0, list.1@[k]));
    assert(groups[g].members@[m].1@[k].0@ == token);
}

/// What is grouped is a token that is not empty and has not the end-of-sequence identifier, with its
/// identifiers, under its classes. No token is listed twice, and in a list the longest go first.
pub proof fn law_groups_hold_tokens(
    dfa: DenseDfa,
    vocabulary: VocabularyView,
    groups: Seq<TokenGroup>,
    one: (int, int, int),
    other: (int, int, int),
)
    requires
        is_grouping(dfa, vocabulary, groups),
        0 <= one.0 < groups.len(),
        0 <= one.1 < groups[one.0].members@.len(),
        0 <= one.2 < groups[one.0].members@[one.1].1@.len(),
        0 <= other.0 < groups.len(),
        0 <= other.1 < groups[other.0].members@.len(),
        0 <= other.2 < groups[other.0].members@[other.1].1@.len(),
    ensures
        ({
            let entry = groups[one.0].members@[one.1].1@[one.2];
            let next = groups[other.0].members@[other.1].1@[other.2];
            let token = entry.0@;
            &&& vocabulary.tokens.contains_key(token)
            &&& !vocabulary.tokens[token].contains(vocabulary.eos)
            &&& vocabulary.tokens[token] == entry.1@
            &&& token.len() > 0
            &&& groups[one.0].first_class == dfa.classes[token[0] as int]
            &&& groups[one.0].members@[one.1].0 == if token.len() > 1 {
                dfa.classes[token[1] as int] as u32
            } else {
                0
            }
            &&& one != other ==> token != next.0@
            &&& one.0 == other.0 && one.1 == other.1 && one.2 < other.2 ==> token.len()
                >= next.0@.len()
        }),
{
    let a = groups[one.0];
    let b = groups[other.0];
    assert(is_group(dfa, vocabulary, a) && is_group(dfa, vocabulary, b));
    let p = a.members@[one.1];
    let q = b.members@[other.1];
    assert(is_member_list(dfa, vocabulary, a.first_class, p));
    assert(is_member_list(dfa, vocabulary, b.first_class, q));
    assert(is_member(dfa, vocabulary, a.first_class, p.0, p.1@[one.2]));
    assert(is_member(dfa, vocabulary, b.first_class, q.0, q.1@[other.2]));
    if p.1@[one.2].0@ == q.1@[other.2].0@ {
        if one.0 < other.0 {
            assert(groups[one.0].first_class != groups[other.0].first_class);
        } else if other.0 < one.0 {
            assert(groups[other.0].first_class != groups[one.0].first_class);
        }
        if one.1 < other.1 {
            assert(a.members@[one.1].0 != a.members@[other.1].0);
        } else if other.1 < one.1 {
            assert(a.members@[other.1].0 != a.members@[one.1].0);
        }
        if one.2 < other.2 {
            assert(p.1@[one.2].0@ != p.1@[other.2].0@);
        } else if other.2 < one.2 {
            assert(p.1@[other.2].0@ != p.1@[one.2].0@);
        }
    }
}

} // verus!
