use vstd::prelude::*;

verus! {

/// The kinds of filter an operator can carry. An operator carries at most
/// one filter of each kind.
#[derive(Debug, PartialEq, Eq, Clone, Copy, Structural)]
pub enum FilterType {
    LowPassBiquad,
    Comb,
    PitchedComb,
}

/// The bytes of the name `LowPass`.
pub open spec fn low_pass_name() -> Seq<u8> {
    seq![76u8, 111u8, 119u8, 80u8, 97u8, 115u8, 115u8]
}

/// The bytes of the name `Comb`.
pub open spec fn comb_name() -> Seq<u8> {
    seq![67u8, 111u8, 109u8, 98u8]
}

/// The bytes of the name `PitchedComb`.
pub open spec fn pitched_comb_name() -> Seq<u8> {
    seq![80u8, 105u8, 116u8, 99u8, 104u8, 101u8, 100u8, 67u8, 111u8, 109u8, 98u8]
}

/// The kind of filter that a host names by `name`, if it names one.
pub open spec fn filter_type_of_name(name: Seq<u8>) -> Option<FilterType> {
    if name == low_pass_name() {
        Some(FilterType::LowPassBiquad)
    } else if name == comb_name() {
        Some(FilterType::Comb)
    } else if name == pitched_comb_name() {
        Some(FilterType::PitchedComb)
    } else {
        None
    }
}

/// Whether `name` holds exactly the bytes `wanted`.
fn name_is(name: &[u8], wanted: &[u8]) -> (same: bool)
    ensures
        same == (name@ == wanted@),
{
    if name.len() != wanted.len() {
        return false;
    }
    let mut i: usize = 0;
    while i < name.len()
        invariant
            i <= name@.len(),
            name@.len() == wanted@.len(),
            forall|k: int| 0 <= k < i ==> name@[k] == wanted@[k],
        decreases name@.len() - i,
    {
        if name[i] != wanted[i] {
            return false;
        }
        i += 1;
    }
    proof {
        assert(name@ =~= wanted@);
    }
    true
}

impl FilterType {
    /// Computes [`filter_type_of_name`].
    pub fn from_name(name: &[u8]) -> (kind: Option<Self>)
        ensures
            kind == filter_type_of_name(name@),
    {
        let low_pass: [u8; 7] = [76, 111, 119, 80, 97, 115, 115];
        let comb: [u8; 4] = [67, 111, 109, 98];
        let pitched_comb: [u8; 11] = [80, 105, 116, 99, 104, 101, 100, 67, 111, 109, 98];
        proof {
            assert(low_pass@ =~= low_pass_name());
            assert(comb@ =~= comb_name());
            assert(pitched_comb@ =~= pitched_comb_name());
        }
        if name_is(name, low_pass.as_slice()) {
            Some(FilterType::LowPassBiquad)
        } else if name_is(name, comb.as_slice()) {
            Some(FilterType::Comb)
        } else if name_is(name, pitched_comb.as_slice()) {
            Some(FilterType::PitchedComb)
        } else {
            None
        }
    }
}

/// The chain after a filter of kind `kind` has been set: a filter of that
/// kind keeps its place, a new kind goes to the end.
pub open spec fn chain_with(chain: Seq<FilterType>, kind: FilterType) -> Seq<FilterType> {
    if chain.contains(kind) {
        chain
    } else {
        chain.push(kind)
    }
}

/// The place of the first filter of kind `kind`, or the length of the
/// chain when there is none.
pub open spec fn place_of(chain: Seq<FilterType>, kind: FilterType) -> int
    decreases chain.len(),
{
    if chain.len() == 0 {
        0
    } else if chain[0] == kind {
        0
    } else {
        1 + place_of(chain.drop_first(), kind)
    }
}

/// The place of a kind is the first position that holds it, and lies
/// inside the chain exactly when the chain holds the kind.
pub proof fn lemma_place_of(chain: Seq<FilterType>, kind: FilterType)
    ensures
        0 <= place_of(chain, kind) <= chain.len(),
        place_of(chain, kind) < chain.len() <==> chain.contains(kind),
        place_of(chain, kind) < chain.len() ==> chain[place_of(chain, kind)] == kind,
        forall|i: int| 0 <= i < place_of(chain, kind) ==> chain[i] != kind,
    decreases chain.len(),
{
    if chain.len() > 0 {
        if chain[0] != kind {
            let rest = chain.drop_first();
            lemma_place_of(rest, kind);
            if rest.contains(kind) {
                let i = choose|i: int| 0 <= i < rest.len() && rest[i] == kind;
                assert(chain[i + 1] == kind);
            }
            if chain.contains(kind) {
                let i = choose|i: int| 0 <= i < chain.len() && chain[i] == kind;
                assert(rest[i - 1] == kind);
            }
            assert forall|i: int| 0 <= i < place_of(chain, kind) implies chain[i] != kind by {
                if i > 0 {
                    assert(rest[i - 1] != kind);
                }
            }
        }
    }
}

/// The chain after the filter of kind `kind` has been taken out; the
/// others keep their order. In a chain that holds no kind twice this
/// leaves no filter of the kind behind.
pub open spec fn chain_without(chain: Seq<FilterType>, kind: FilterType) -> Seq<FilterType> {
    if chain.contains(kind) {
        chain.remove(place_of(chain, kind))
    } else {
        chain
    }
}

/// Setting a filter of a kind the chain does not hold and removing that
/// kind again gives back the chain as it was.
pub proof fn lemma_set_then_remove(chain: Seq<FilterType>, kind: FilterType)
    requires
        !chain.contains(kind),
    ensures
        chain_without(chain_with(chain, kind), kind) == chain,
{
    let longer = chain.push(kind);
    lemma_place_of(longer, kind);
    assert(longer[chain.len() as int] == kind);
    let place = place_of(longer, kind);
    if place < chain.len() {
        assert(chain[place] == kind);
    }
    assert(longer.remove(place) =~= chain);
}

/// Setting a filter of a kind the chain holds already changes nothing,
/// and setting the same kind twice is the same as setting it once.
pub proof fn lemma_set_is_idempotent(chain: Seq<FilterType>, kind: FilterType)
    ensures
        chain_with(chain_with(chain, kind), kind) == chain_with(chain, kind),
{
    if !chain.contains(kind) {
        assert(chain.push(kind)[chain.len() as int] == kind);
    }
}

/// A chain that holds no kind twice stays so under setting and removing,
/// and after removing a kind holds no filter of that kind.
pub proof fn lemma_chain_stays_distinct(chain: Seq<FilterType>, kind: FilterType)
    requires
        chain.no_duplicates(),
    ensures
        chain_with(chain, kind).no_duplicates(),
        chain_without(chain, kind).no_duplicates(),
        !chain_without(chain, kind).contains(kind),
{
    lemma_place_of(chain, kind);
    if !chain.contains(kind) {
        let longer = chain.push(kind);
        assert forall|i: int, j: int|
            0 <= i < longer.len() && 0 <= j < longer.len() && i != j implies longer[i]
            != longer[j] by {
            if i < chain.len() && j < chain.len() {
                assert(chain[i] != chain[j]);
            } else if i < chain.len() {
                assert(chain[i] != kind);
            } else {
                assert(chain[j] != kind);
            }
        }
    } else {
        let place = place_of(chain, kind);
        let shorter = chain.remove(place);
        assert forall|i: int, j: int|
            0 <= i < shorter.len() && 0 <= j < shorter.len() && i != j implies shorter[i]
            != shorter[j] by {
            let oi = if i < place {
                i
            } else {
                i + 1
            };
            let oj = if j < place {
                j
            } else {
                j + 1
            };
            assert(shorter[i] == chain[oi]);
            assert(shorter[j] == chain[oj]);
        }
        if shorter.contains(kind) {
            let i = choose|i: int| 0 <= i < shorter.len() && shorter[i] == kind;
            let oi = if i < place {
                i
            } else {
                i + 1
            };
            assert(shorter[i] == chain[oi]);
            assert(chain[oi] != chain[place]);
        }
    }
}

} // verus!
