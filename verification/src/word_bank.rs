//! The word bank: for each identifier, the pool of words collected for it.

use vstd::prelude::*;

verus! {

/// What the bank holds for one identifier.
pub struct WordBankEntry {
    /// The collected words, each of them once, oldest first.
    pub pool: Seq<Seq<char>>,
    /// Whether taking a word leaves the pool as it is.
    pub persistent: bool,
}

/// Whether `bank` has a word to hand out for `identifier`.
pub open spec fn has_word(bank: Map<Seq<char>, WordBankEntry>, identifier: Seq<char>) -> bool {
    bank.contains_key(identifier) && bank[identifier].pool.len() > 0
}

/// The word of `identifier` that has been in its pool longest.
pub open spec fn oldest_word(bank: Map<Seq<char>, WordBankEntry>, identifier: Seq<char>) -> Seq<
    char,
> {
    bank[identifier].pool.first()
}

/// `bank` once `word` has joined the pool of `identifier`. A word that the
/// pool already holds, and an identifier that the bank does not know, leave
/// the bank as it is.
pub open spec fn with_word_in_pool(
    bank: Map<Seq<char>, WordBankEntry>,
    identifier: Seq<char>,
    word: Seq<char>,
) -> Map<Seq<char>, WordBankEntry> {
    if bank.contains_key(identifier) && !bank[identifier].pool.contains(word) {
        bank.insert(
            identifier,
            WordBankEntry {
                pool: bank[identifier].pool.push(word),
                persistent: bank[identifier].persistent,
            },
        )
    } else {
        bank
    }
}

/// `bank` once the oldest word of `identifier` has left its pool. Where
/// there is no such word the bank stays as it is.
pub open spec fn without_oldest_word(
    bank: Map<Seq<char>, WordBankEntry>,
    identifier: Seq<char>,
) -> Map<Seq<char>, WordBankEntry> {
    if has_word(bank, identifier) {
        bank.insert(
            identifier,
            WordBankEntry {
                pool: bank[identifier].pool.drop_first(),
                persistent: bank[identifier].persistent,
            },
        )
    } else {
        bank
    }
}

/// Whether every pool of `bank` holds each of its words once.
pub open spec fn pools_are_sets(bank: Map<Seq<char>, WordBankEntry>) -> bool {
    forall|identifier: Seq<char>| #[trigger]
        bank.contains_key(identifier) ==> bank[identifier].pool.no_duplicates()
}

/// A word that joins a pool does not make it hold any word twice.
pub proof fn lemma_with_word_in_pool_keeps_sets(
    bank: Map<Seq<char>, WordBankEntry>,
    identifier: Seq<char>,
    word: Seq<char>,
)
    requires
        pools_are_sets(bank),
    ensures
        pools_are_sets(with_word_in_pool(bank, identifier, word)),
{
    let after = with_word_in_pool(bank, identifier, word);
    assert forall|other: Seq<char>| #[trigger]
        after.contains_key(other) implies after[other].pool.no_duplicates() by {
        assert(bank.contains_key(other));
    }
}

/// A word that leaves a pool does not make it hold any word twice.
pub proof fn lemma_without_oldest_word_keeps_sets(
    bank: Map<Seq<char>, WordBankEntry>,
    identifier: Seq<char>,
)
    requires
        pools_are_sets(bank),
    ensures
        pools_are_sets(without_oldest_word(bank, identifier)),
{
    let after = without_oldest_word(bank, identifier);
    assert forall|other: Seq<char>| #[trigger]
        after.contains_key(other) implies after[other].pool.no_duplicates() by {
        assert(bank.contains_key(other));
        if other == identifier && has_word(bank, identifier) {
            let pool = bank[identifier].pool;
            assert forall|i: int, j: int|
                0 <= i < pool.drop_first().len() && 0 <= j < pool.drop_first().len() && i
                    != j implies pool.drop_first()[i] != pool.drop_first()[j] by {
                assert(pool.drop_first()[i] == pool[i + 1]);
                assert(pool.drop_first()[j] == pool[j + 1]);
            }
        }
    }
}

struct Slot {
    identifier: String,
    words: Vec<String>,
    persistent: bool,
}

impl Slot {
    spec fn entry(self) -> WordBankEntry {
        WordBankEntry { pool: self.words.deep_view(), persistent: self.persistent }
    }
}

spec fn identifiers(slots: Seq<Slot>) -> Seq<Seq<char>> {
    Seq::new(slots.len(), |i: int| slots[i].identifier@)
}

spec fn well_formed(slots: Seq<Slot>) -> bool {
    &&& identifiers(slots).no_duplicates()
    &&& forall|i: int| 0 <= i < slots.len() ==> (#[trigger] slots[i]).entry().pool.no_duplicates()
}

spec fn entries(slots: Seq<Slot>) -> Map<Seq<char>, WordBankEntry> {
    Map::new(
        |identifier: Seq<char>| identifiers(slots).contains(identifier),
        |identifier: Seq<char>| slots[identifiers(slots).index_of(identifier)].entry(),
    )
}

proof fn lemma_entries(slots: Seq<Slot>)
    requires
        well_formed(slots),
    ensures
        forall|identifier: Seq<char>| #[trigger]
            entries(slots).contains_key(identifier) <==> identifiers(slots).contains(identifier),
        forall|i: int|
            0 <= i < slots.len() ==> entries(slots).contains_key(#[trigger] slots[i].identifier@)
                && entries(slots)[slots[i].identifier@] == slots[i].entry(),
{
    let ids = identifiers(slots);
    assert forall|i: int| 0 <= i < slots.len() implies entries(slots).contains_key(
        #[trigger] slots[i].identifier@,
    ) && entries(slots)[slots[i].identifier@] == slots[i].entry() by {
        assert(ids[i] == slots[i].identifier@);
        let j = ids.index_of(ids[i]);
        assert(ids[j] == ids[i]);
    }
}

proof fn lemma_well_formed_pools(slots: Seq<Slot>)
    requires
        well_formed(slots),
    ensures
        pools_are_sets(entries(slots)),
{
    lemma_entries(slots);
    assert forall|identifier: Seq<char>| #[trigger]
        entries(slots).contains_key(identifier) implies entries(slots)[identifier].pool
        .no_duplicates() by {
        let j = identifiers(slots).index_of(identifier);
        assert(slots[j].identifier@ == identifier);
    }
}

fn position(slots: &Vec<Slot>, identifier: &String) -> (found: Option<usize>)
    ensures
        (match found {
            Some(i) => i < slots.len() && slots[i as int].identifier@ == identifier@,
            None => !identifiers(slots@).contains(identifier@),
        }),
{
    let mut i: usize = 0;
    while i < slots.len()
        invariant
            i <= slots.len(),
            forall|j: int| 0 <= j < i ==> slots[j].identifier@ != identifier@,
        decreases slots.len() - i,
    {
        if slots[i].identifier == *identifier {
            return Some(i);
        }
        i += 1;
    }
    None
}

proof fn lemma_replace(before: Seq<Slot>, after: Seq<Slot>, at: int)
    requires
        well_formed(before),
        0 <= at < before.len(),
        after.len() == before.len(),
        forall|j: int| 0 <= j < before.len() && j != at ==> after[j] == before[j],
        after[at].identifier@ == before[at].identifier@,
        after[at].entry().pool.no_duplicates(),
    ensures
        well_formed(after),
        entries(after) == entries(before).insert(before[at].identifier@, after[at].entry()),
{
    assert(identifiers(after) =~= identifiers(before));
    lemma_entries(before);
    lemma_entries(after);
    let changed = entries(before).insert(before[at].identifier@, after[at].entry());
    assert(identifiers(before)[at] == before[at].identifier@);
    assert forall|identifier: Seq<char>| #[trigger]
        entries(after).contains_key(identifier) implies entries(after)[identifier]
        == changed[identifier] by {
        let j = identifiers(after).index_of(identifier);
        assert(after[j].identifier@ == identifier);
        assert(before[j].identifier@ == identifier);
    }
    assert(entries(after) =~= changed);
}

proof fn lemma_push(before: Seq<Slot>, slot: Slot)
    requires
        well_formed(before),
        !identifiers(before).contains(slot.identifier@),
        slot.entry().pool.no_duplicates(),
    ensures
        well_formed(before.push(slot)),
        entries(before.push(slot)) == entries(before).insert(slot.identifier@, slot.entry()),
{
    let after = before.push(slot);
    assert(identifiers(after) =~= identifiers(before).push(slot.identifier@));
    assert forall|i: int, j: int|
        0 <= i < after.len() && 0 <= j < after.len() && i != j implies identifiers(after)[i]
        != identifiers(after)[j] by {
        if i < before.len() {
            assert(identifiers(before)[i] == identifiers(after)[i]);
        }
        if j < before.len() {
            assert(identifiers(before)[j] == identifiers(after)[j]);
        }
    }
    lemma_entries(before);
    lemma_entries(after);
    let changed = entries(before).insert(slot.identifier@, slot.entry());
    assert(after[before.len() as int].identifier@ == slot.identifier@);
    assert forall|identifier: Seq<char>|
        entries(after).contains_key(identifier) == #[trigger] changed.contains_key(
            identifier,
        ) by {
        if identifiers(after).contains(identifier) {
            let j = identifiers(after).index_of(identifier);
            if j < before.len() {
                assert(identifiers(before)[j] == identifier);
            }
        }
        if identifiers(before).contains(identifier) {
            let j = identifiers(before).index_of(identifier);
            assert(identifiers(after)[j] == identifier);
        }
        if identifier == slot.identifier@ {
            assert(identifiers(after)[before.len() as int] == identifier);
        }
    }
    assert forall|identifier: Seq<char>| #[trigger]
        entries(after).contains_key(identifier) implies entries(after)[identifier]
        == changed[identifier] by {
        let j = identifiers(after).index_of(identifier);
        assert(after[j].identifier@ == identifier);
        if j < before.len() {
            assert(before[j].identifier@ == identifier);
            assert(identifiers(before)[j] == identifier);
        }
    }
    assert(entries(after) =~= changed);
}

proof fn lemma_remove(before: Seq<Slot>, at: int)
    requires
        well_formed(before),
        0 <= at < before.len(),
    ensures
        well_formed(before.remove(at)),
        entries(before.remove(at)) == entries(before).remove(before[at].identifier@),
{
    let after = before.remove(at);
    let gone = before[at].identifier@;
    assert forall|i: int| 0 <= i < after.len() implies #[trigger] after[i] == before[if i < at {
        i
    } else {
        i + 1
    }] by {}
    assert forall|i: int, j: int|
        0 <= i < after.len() && 0 <= j < after.len() && i != j implies identifiers(after)[i]
        != identifiers(after)[j] by {
        let oi = if i < at { i } else { i + 1 };
        let oj = if j < at { j } else { j + 1 };
        assert(identifiers(before)[oi] == identifiers(after)[i]);
        assert(identifiers(before)[oj] == identifiers(after)[j]);
    }
    assert forall|i: int| 0 <= i < after.len() implies (#[trigger] after[i]).entry().pool
        .no_duplicates() by {
        let oi = if i < at { i } else { i + 1 };
        assert(after[i] == before[oi]);
    }
    lemma_entries(before);
    lemma_entries(after);
    let changed = entries(before).remove(gone);
    assert(identifiers(before)[at] == gone);
    assert forall|identifier: Seq<char>|
        entries(after).contains_key(identifier) == #[trigger] changed.contains_key(
            identifier,
        ) by {
        if identifiers(after).contains(identifier) {
            let j = identifiers(after).index_of(identifier);
            let oj = if j < at { j } else { j + 1 };
            assert(identifiers(before)[oj] == identifier);
        }
        if identifiers(before).contains(identifier) && identifier != gone {
            let oj = identifiers(before).index_of(identifier);
            let j = if oj < at { oj } else { oj - 1 };
            assert(identifiers(after)[j] == identifier);
        }
    }
    assert forall|identifier: Seq<char>| #[trigger]
        entries(after).contains_key(identifier) implies entries(after)[identifier]
        == changed[identifier] by {
        let j = identifiers(after).index_of(identifier);
        let oj = if j < at { j } else { j + 1 };
        assert(after[j] == before[oj]);
        assert(identifiers(after)[j] == identifier);
        assert(identifiers(before)[oj] == identifier);
        assert(identifier != gone);
        assert(entries(after)[identifier] == after[j].entry());
        assert(entries(before)[identifier] == before[oj].entry());
    }
    assert(entries(after) =~= changed);
}

fn reset_slot(slots: &mut Vec<Slot>, identifier: String, persistent: bool)
    requires
        well_formed(old(slots)@),
    ensures
        well_formed(final(slots)@),
        entries(final(slots)@) == entries(old(slots)@).insert(
            identifier@,
            (WordBankEntry { pool: Seq::empty(), persistent }),
        ),
{
    match position(slots, &identifier) {
        Some(i) => {
            slots[i].words = Vec::new();
            slots[i].persistent = persistent;
            proof {
                assert(slots[i as int].entry().pool =~= Seq::<Seq<char>>::empty());
                lemma_replace(old(slots)@, slots@, i as int);
            }
        },
        None => {
            let slot = Slot { identifier, words: Vec::new(), persistent };
            proof {
                assert(slot.entry().pool =~= Seq::<Seq<char>>::empty());
                lemma_push(slots@, slot);
            }
            slots.push(slot);
        },
    }
}

fn holds_word(words: &Vec<String>, word: &String) -> (found: bool)
    ensures
        found == words.deep_view().contains(word@),
{
    let mut i: usize = 0;
    while i < words.len()
        invariant
            i <= words.len(),
            forall|j: int| 0 <= j < i ==> words.deep_view()[j] != word@,
        decreases words.len() - i,
    {
        if words[i] == *word {
            assert(words.deep_view()[i as int] == word@);
            return true;
        }
        i += 1;
    }
    false
}

fn extend_slot(slots: &mut Vec<Slot>, identifier: &String, word: String)
    requires
        well_formed(old(slots)@),
    ensures
        well_formed(final(slots)@),
        entries(final(slots)@) == with_word_in_pool(entries(old(slots)@), identifier@, word@),
{
    proof {
        lemma_entries(slots@);
    }
    match position(slots, identifier) {
        Some(i) => {
            if !holds_word(&slots[i].words, &word) {
                let ghost pool = slots[i as int].entry().pool;
                slots[i].words.push(word);
                proof {
                    assert(slots[i as int].entry().pool =~= pool.push(word@));
                    lemma_replace(old(slots)@, slots@, i as int);
                }
            }
        },
        None => {},
    }
}

fn shorten_slot(slots: &mut Vec<Slot>, identifier: &String) -> (word: Option<String>)
    requires
        well_formed(old(slots)@),
    ensures
        well_formed(final(slots)@),
        entries(final(slots)@) == without_oldest_word(entries(old(slots)@), identifier@),
        (match word {
            Some(w) => has_word(entries(old(slots)@), identifier@) && w@ == oldest_word(
                entries(old(slots)@),
                identifier@,
            ),
            None => !has_word(entries(old(slots)@), identifier@),
        }),
{
    proof {
        lemma_entries(slots@);
    }
    match position(slots, identifier) {
        Some(i) => {
            if slots[i].words.len() > 0 {
                let ghost pool = slots[i as int].entry().pool;
                let word = slots[i].words.remove(0);
                proof {
                    assert(slots[i as int].entry().pool =~= pool.drop_first());
                    assert(word@ == pool[0]);
                    lemma_replace(old(slots)@, slots@, i as int);
                }
                Some(word)
            } else {
                None
            }
        },
        None => None,
    }
}

/// A map from identifiers to their entries.
pub struct WordBank {
    slots: Vec<Slot>,
}

impl View for WordBank {
    type V = Map<Seq<char>, WordBankEntry>;

    closed spec fn view(&self) -> Map<Seq<char>, WordBankEntry> {
        entries(self.slots@)
    }
}

impl WordBank {
    #[verifier::type_invariant]
    pub(crate) closed spec fn inv(self) -> bool {
        well_formed(self.slots@)
    }

    /// Every pool of a bank holds each of its words once.
    pub(crate) proof fn lemma_pools_are_sets(self)
        requires
            self.inv(),
        ensures
            pools_are_sets(self@),
    {
        lemma_well_formed_pools(self.slots@);
    }

    /// A bank without any identifier.
    pub fn new() -> (bank: WordBank)
        ensures
            bank@ == Map::<Seq<char>, WordBankEntry>::empty(),
            pools_are_sets(bank@),
    {
        let bank = WordBank { slots: Vec::new() };
        assert(bank@ =~= Map::<Seq<char>, WordBankEntry>::empty());
        bank
    }

    /// Whether the bank has an entry for `identifier`.
    pub fn contains_key(&self, identifier: &String) -> (found: bool)
        ensures
            found == self@.contains_key(identifier@),
    {
        proof {
            use_type_invariant(self);
            lemma_entries(self.slots@);
        }
        position(&self.slots, identifier).is_some()
    }

    /// Gives `identifier` an entry with an empty pool, in place of the one it
    /// had, if any.
    pub fn insert(&mut self, identifier: String, persistent: bool)
        ensures
            final(self)@ == old(self)@.insert(
                identifier@,
                (WordBankEntry { pool: Seq::empty(), persistent }),
            ),
            pools_are_sets(final(self)@),
    {
        proof {
            use_type_invariant(&*self);
        }
        let mut slots: Vec<Slot> = Vec::new();
        std::mem::swap(&mut slots, &mut self.slots);
        reset_slot(&mut slots, identifier, persistent);
        self.slots = slots;
        proof {
            lemma_well_formed_pools(self.slots@);
        }
    }

    /// Adds `word` to the pool of `identifier`, unless the pool holds it
    /// already or the bank has no entry for `identifier`.
    pub fn insert_word(&mut self, identifier: &String, word: String)
        ensures
            final(self)@ == with_word_in_pool(old(self)@, identifier@, word@),
            pools_are_sets(final(self)@),
    {
        proof {
            use_type_invariant(&*self);
        }
        let mut slots: Vec<Slot> = Vec::new();
        std::mem::swap(&mut slots, &mut self.slots);
        extend_slot(&mut slots, identifier, word);
        self.slots = slots;
        proof {
            lemma_well_formed_pools(self.slots@);
        }
    }

    /// The oldest word in the pool of `identifier`, if there is one. The bank
    /// keeps it.
    pub fn first_word(&self, identifier: &String) -> (word: Option<String>)
        ensures
            (match word {
                Some(w) => has_word(self@, identifier@) && w@ == oldest_word(self@, identifier@),
                None => !has_word(self@, identifier@),
            }),
    {
        proof {
            use_type_invariant(self);
            lemma_entries(self.slots@);
        }
        match position(&self.slots, identifier) {
            Some(i) => {
                if self.slots[i].words.len() > 0 {
                    Some(self.slots[i].words[0].clone())
                } else {
                    None
                }
            },
            None => None,
        }
    }

    /// Takes the oldest word out of the pool of `identifier`, if there is
    /// one. The entry stays, even with an empty pool.
    pub fn remove_first_word(&mut self, identifier: &String) -> (word: Option<String>)
        ensures
            final(self)@ == without_oldest_word(old(self)@, identifier@),
            pools_are_sets(final(self)@),
            (match word {
                Some(w) => has_word(old(self)@, identifier@) && w@ == oldest_word(
                    old(self)@,
                    identifier@,
                ),
                None => !has_word(old(self)@, identifier@),
            }),
    {
        proof {
            use_type_invariant(&*self);
        }
        let mut slots: Vec<Slot> = Vec::new();
        std::mem::swap(&mut slots, &mut self.slots);
        let word = shorten_slot(&mut slots, identifier);
        self.slots = slots;
        proof {
            lemma_well_formed_pools(self.slots@);
        }
        word
    }

    /// Whether `identifier` has an entry, and that entry is persistent.
    pub fn is_persistent(&self, identifier: &String) -> (persistent: bool)
        ensures
            persistent == (self@.contains_key(identifier@) && self@[identifier@].persistent),
    {
        proof {
            use_type_invariant(self);
            lemma_entries(self.slots@);
        }
        match position(&self.slots, identifier) {
            Some(i) => self.slots[i].persistent,
            None => false,
        }
    }

    /// How many words the pool of `identifier` holds: none where the bank has
    /// no entry for it.
    pub fn pool_len(&self, identifier: &String) -> (len: usize)
        ensures
            len == (if self@.contains_key(identifier@) {
                self@[identifier@].pool.len()
            } else {
                0
            }),
    {
        proof {
            use_type_invariant(self);
            lemma_entries(self.slots@);
        }
        match position(&self.slots, identifier) {
            Some(i) => self.slots[i].words.len(),
            None => 0,
        }
    }

    /// Removes the entry of `identifier`, if there is one.
    pub fn remove(&mut self, identifier: &String)
        ensures
            final(self)@ == old(self)@.remove(identifier@),
            pools_are_sets(final(self)@),
    {
        proof {
            use_type_invariant(&*self);
            lemma_entries(self.slots@);
        }
        let mut slots: Vec<Slot> = Vec::new();
        std::mem::swap(&mut slots, &mut self.slots);
        match position(&slots, identifier) {
            Some(i) => {
                proof {
                    lemma_remove(slots@, i as int);
                }
                slots.remove(i);
            },
            None => {
                assert(entries(slots@) =~= entries(slots@).remove(identifier@));
            },
        }
        self.slots = slots;
        proof {
            lemma_well_formed_pools(self.slots@);
        }
    }
}

} // verus!
