//! File names and segments: each segment has its own name, and the entries of a
//! directory tell which segments it has.

use crate::replay;
use crate::storage;
use crate::storage::recovery;
use crate::storage::recovery::Entry;
use crate::text;
use vstd::arithmetic::power::*;
use vstd::multiset::Multiset;
use vstd::prelude::*;

verus! {

/// The file of a segment is recognised by its name.
pub proof fn segment_is_recognised(base: u64)
    ensures
        recovery::entry_of(storage::segment_name(base)) == Ok::<Entry, Seq<char>>(
            Entry::Segment { base },
        ),
{
    let name = storage::segment_name(base);
    let digits = text::padded(base as nat, 20);
    reveal_strlit(".log");
    reveal_strlit(".tmp");
    reveal_strlit("checkpoint");
    reveal_strlit("store.lock");
    reveal_strlit("checkpoint.tmp");
    text::lemma_twenty_digits();
    text::padded_spells(base as nat, 20);
    assert(name.take(20) =~= digits);
    assert(name.skip(20) =~= ".log"@);
    assert(".log"@[1] != ".tmp"@[1]);
    assert(name.len() == 24);
}

/// What an interrupted write leaves behind is recognised by its name.
pub proof fn temporaries_are_recognised(base: u64)
    ensures
        recovery::entry_of(storage::temporary_segment_name(base)) == Ok::<Entry, Seq<char>>(
            Entry::Temporary,
        ),
        recovery::entry_of("checkpoint.tmp"@) == Ok::<Entry, Seq<char>>(Entry::Temporary),
{
    let name = storage::temporary_segment_name(base);
    reveal_strlit(".tmp");
    reveal_strlit("checkpoint");
    reveal_strlit("store.lock");
    reveal_strlit("checkpoint.tmp");
    text::lemma_twenty_digits();
    text::padded_spells(base as nat, 20);
    assert(name.take(20) =~= text::padded(base as nat, 20));
    assert(name.skip(20) =~= ".tmp"@);
    assert(name.len() == 24);
    assert("checkpoint.tmp"@.len() == 14);
}

/// Only the name of a segment's file is recognised as that segment.
pub proof fn recognised_segment_has_its_name(name: Seq<char>, base: u64)
    requires
        recovery::entry_of(name) == Ok::<Entry, Seq<char>>(Entry::Segment { base }),
    ensures
        name == storage::segment_name(base),
{
    text::padded_of_value(name.take(20));
    assert(name =~= name.take(20) + name.skip(20));
}

/// Different segments have files of different names.
pub proof fn segment_names_differ(a: u64, b: u64)
    requires
        a != b,
    ensures
        storage::segment_name(a) != storage::segment_name(b),
{
    segment_is_recognised(a);
    segment_is_recognised(b);
}

/// The bases of the segments whose files have those names.
pub open spec fn bases_named(names: Seq<Seq<char>>) -> Multiset<u64>
    decreases names.len(),
{
    if names.len() == 0 {
        Multiset::empty()
    } else {
        match recovery::entry_of(names.last()) {
            Ok(Entry::Segment { base }) => bases_named(names.drop_last()).insert(base),
            _ => bases_named(names.drop_last()),
        }
    }
}

/// Whether `names` are the entries of a directory that has those segment files:
/// nothing has two entries, every entry belongs there, and the segment files
/// are among them.
pub open spec fn directory(names: Seq<Seq<char>>, files: Map<u64, Seq<u8>>) -> bool {
    &&& names.no_duplicates()
    &&& forall|i: int| 0 <= i < names.len() ==> recovery::entry_of(#[trigger] names[i]) is Ok
    &&& forall|base: u64| #[trigger]
        files.dom().contains(base) <==> names.contains(storage::segment_name(base))
}

proof fn lemma_count(names: Seq<Seq<char>>, base: u64)
    requires
        names.no_duplicates(),
    ensures
        bases_named(names).count(base) == if names.contains(storage::segment_name(base)) {
            1nat
        } else {
            0
        },
    decreases names.len(),
{
    let name = storage::segment_name(base);
    if names.len() > 0 {
        let before = names.drop_last();
        lemma_count(before, base);
        segment_is_recognised(base);
        if names.last() == name {
            assert(names[names.len() - 1] == name);
            assert(!before.contains(name)) by {
                if before.contains(name) {
                    let i = choose|i: int| 0 <= i < before.len() && before[i] == name;
                    assert(names[i] == name);
                }
            }
        } else {
            if before.contains(name) {
                let i = choose|i: int| 0 <= i < before.len() && before[i] == name;
                assert(names[i] == name);
            }
            if names.contains(name) {
                let i = choose|i: int| 0 <= i < names.len() && names[i] == name;
                assert(before[i] == name);
            }
            if let Ok(Entry::Segment { base: other }) = recovery::entry_of(names.last()) {
                recognised_segment_has_its_name(names.last(), other);
                assert(other != base);
            }
        }
    }
}

/// Listing the entries of a directory in any order gives the bases of its
/// segment files, in ascending order.
pub proof fn listing_finds_the_segments(
    names: Seq<Seq<char>>,
    files: Map<u64, Seq<u8>>,
    bases: Seq<u64>,
)
    requires
        directory(names, files),
        recovery::sorted(bases),
        bases.to_multiset() == bases_named(names),
    ensures
        replay::listed(files, bases),
{
    bases.to_multiset_ensures();
    assert forall|base: u64| #[trigger] bases.contains(base) == files.dom().contains(base) by {
        lemma_count(names, base);
        assert(bases.to_multiset().contains(base) <==> bases.contains(base));
    }
    assert forall|base: u64| bases.to_multiset().contains(base) implies #[trigger]
        bases.to_multiset().count(base) == 1 by {
        lemma_count(names, base);
    }
    bases.lemma_multiset_has_no_duplicates_conv();
    assert(bases.to_set() =~= files.dom());
}

/// The name of a segment's file is the 20 decimal digits of its base and then
/// `.log`; until the file is complete it is the digits and then `.tmp`.
pub proof fn names_are_digits(base: u64, i: int)
    requires
        0 <= i < 20,
    ensures
        ({
            let name = storage::segment_name(base);
            let temporary = storage::temporary_segment_name(base);
            &&& name.len() == 24
            &&& name[19 - i] as int == 48 + base as int / pow(10, i as nat) % 10
            &&& name.skip(20) == seq!['.', 'l', 'o', 'g']
            &&& temporary.take(20) == name.take(20)
            &&& temporary.len() == 24
            &&& temporary.skip(20) == seq!['.', 't', 'm', 'p']
        }),
{
    reveal_strlit(".log");
    reveal_strlit(".tmp");
    text::padded_has_digits(base as nat, 20, i);
    let name = storage::segment_name(base);
    let temporary = storage::temporary_segment_name(base);
    assert(name.skip(20) =~= seq!['.', 'l', 'o', 'g']);
    assert(temporary.skip(20) =~= seq!['.', 't', 'm', 'p']);
    assert(temporary.take(20) =~= name.take(20));
}

} // verus!
