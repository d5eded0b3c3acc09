//! Player actions and their canonical byte encoding.
//!
//! An action is signed and hashed over one fixed layout: the ABI encoding of
//! the solidity tuple `(uint8 nonce, uint8 hand_id, uint8 kind, uint8[]
//! player_cards, uint8[] dealer_cards)`. The observed card lists are part of
//! the signed payload, so a player cannot later deny the state they believed
//! they were acting on.

use vstd::prelude::*;

verus! {

/// The kind of a player action.
#[derive(Clone, Copy, PartialEq, Eq, Structural, Debug)]
pub enum ActionType {
    Hit,
    Stand,
    Double,
    Split,
}

/// Total mapping from a wire byte to an action kind; bytes above 3 have no
/// mapped variant.
pub open spec fn kind_of(code: u8) -> Option<ActionType> {
    if code == 0 {
        Some(ActionType::Hit)
    } else if code == 1 {
        Some(ActionType::Stand)
    } else if code == 2 {
        Some(ActionType::Double)
    } else if code == 3 {
        Some(ActionType::Split)
    } else {
        None
    }
}

/// The wire byte of an action kind.
pub open spec fn spec_code(t: ActionType) -> u8 {
    match t {
        ActionType::Hit => 0,
        ActionType::Stand => 1,
        ActionType::Double => 2,
        ActionType::Split => 3,
    }
}

impl ActionType {
    /// Decode a wire byte; out-of-range bytes are rejected, never mapped.
    pub fn from_code(code: u8) -> (r: Option<ActionType>)
        ensures
            r == kind_of(code),
    {
        if code == 0 {
            Some(ActionType::Hit)
        } else if code == 1 {
            Some(ActionType::Stand)
        } else if code == 2 {
            Some(ActionType::Double)
        } else if code == 3 {
            Some(ActionType::Split)
        } else {
            None
        }
    }

    /// Encode the kind as its wire byte.
    pub fn code(self) -> (r: u8)
        ensures
            r == spec_code(self),
    {
        match self {
            ActionType::Hit => 0,
            ActionType::Stand => 1,
            ActionType::Double => 2,
            ActionType::Split => 3,
        }
    }
}

/// Decoding a kind's wire byte gives back the kind.
pub proof fn lemma_kind_code_round_trip(t: ActionType)
    ensures
        kind_of(spec_code(t)) == Some(t),
{
}

/// A decoded player action, as the rules engine consumes it.
pub struct Action {
    pub hand_id: u8,
    pub inner: ActionType,
    pub my_cards: Vec<u8>,
    pub dealer_cards: Vec<u8>,
}

/// Mathematical view of an [`Action`].
pub struct ActionV {
    pub hand_id: u8,
    pub inner: ActionType,
    pub my_cards: Seq<u8>,
    pub dealer_cards: Seq<u8>,
}

impl View for Action {
    type V = ActionV;

    open spec fn view(&self) -> ActionV {
        ActionV {
            hand_id: self.hand_id,
            inner: self.inner,
            my_cards: self.my_cards@,
            dealer_cards: self.dealer_cards@,
        }
    }
}

/// An action as transported and logged: the signed wire form, with the kind
/// still a raw byte.
pub struct WireAction {
    pub nonce: u8,
    pub hand_id: u8,
    pub kind: u8,
    pub my_cards: Vec<u8>,
    pub dealer_cards: Vec<u8>,
}

/// Mathematical view of a [`WireAction`].
pub struct WireActionV {
    pub nonce: u8,
    pub hand_id: u8,
    pub kind: u8,
    pub my_cards: Seq<u8>,
    pub dealer_cards: Seq<u8>,
}

impl View for WireAction {
    type V = WireActionV;

    open spec fn view(&self) -> WireActionV {
        WireActionV {
            nonce: self.nonce,
            hand_id: self.hand_id,
            kind: self.kind,
            my_cards: self.my_cards@,
            dealer_cards: self.dealer_cards@,
        }
    }
}

/// Views of a logged action sequence.
pub open spec fn wire_views(s: Seq<WireAction>) -> Seq<WireActionV> {
    s.map_values(|a: WireAction| a@)
}

/// Decode the wire form of an action; fails exactly on an unmapped kind byte.
pub fn to_action(w: &WireAction) -> (r: Option<Action>)
    ensures
        kind_of(w.kind) is None <==> r is None,
        r matches Some(a) ==> {
            &&& a.hand_id == w.hand_id
            &&& Some(a.inner) == kind_of(w.kind)
            &&& a.my_cards@ == w.my_cards@
            &&& a.dealer_cards@ == w.dealer_cards@
        },
{
    match ActionType::from_code(w.kind) {
        Some(t) => Some(
            Action {
                hand_id: w.hand_id,
                inner: t,
                my_cards: copy_bytes(&w.my_cards),
                dealer_cards: copy_bytes(&w.dealer_cards),
            },
        ),
        None => None,
    }
}

/// Copy of a byte vector.
pub fn copy_bytes(v: &Vec<u8>) -> (r: Vec<u8>)
    ensures
        r@ == v@,
{
    let mut r: Vec<u8> = Vec::new();
    let mut i: usize = 0;
    while i < v.len()
        invariant
            0 <= i <= v@.len(),
            r@ == v@.take(i as int),
        decreases v@.len() - i,
    {
        r.push(v[i]);
        proof {
            assert(v@.take(i + 1) =~= v@.take(i as int).push(v@[i as int]));
        }
        i = i + 1;
    }
    proof {
        assert(v@.take(v@.len() as int) =~= v@);
    }
    r
}

/// The canonical byte encoding of one action: the ABI encoding of the tuple
/// `(uint8, uint8, uint8, uint8[], uint8[])` over its field values.
pub uninterp spec fn action_wire(
    nonce: u8,
    hand_id: u8,
    kind: u8,
    my_cards: Seq<u8>,
    dealer_cards: Seq<u8>,
) -> Seq<u8>;

/// The canonical byte encoding of a whole action log: the ABI encoding of an
/// array of the per-action tuples.
pub uninterp spec fn actions_wire(actions: Seq<WireActionV>) -> Seq<u8>;

/// Relies on alloy_sol_types' ABI encoding of the solidity tuple
/// `(uint8, uint8, uint8, uint8[], uint8[])`: the bytes are a function of the
/// field values alone.
#[verifier::external_body]
pub(crate) fn abi_encode_action(w: &WireAction) -> (r: Vec<u8>)
    ensures
        r@ == action_wire(w.nonce, w.hand_id, w.kind, w.my_cards@, w.dealer_cards@),
{
    <(
        alloy_sol_types::sol_data::Uint<8>,
        alloy_sol_types::sol_data::Uint<8>,
        alloy_sol_types::sol_data::Uint<8>,
        alloy_sol_types::sol_data::Array<alloy_sol_types::sol_data::Uint<8>>,
        alloy_sol_types::sol_data::Array<alloy_sol_types::sol_data::Uint<8>>,
    ) as alloy_sol_types::SolType>::abi_encode(
        &(w.nonce, w.hand_id, w.kind, w.my_cards.clone(), w.dealer_cards.clone()),
    )
}

/// Relies on alloy_sol_types' ABI encoding of the solidity type
/// `(uint8, uint8, uint8, uint8[], uint8[])[]`: the bytes are a function of
/// the logged field values alone.
#[verifier::external_body]
pub(crate) fn abi_encode_actions(actions: &Vec<WireAction>) -> (r: Vec<u8>)
    ensures
        r@ == actions_wire(wire_views(actions@)),
{
    let tuples: Vec<(u8, u8, u8, Vec<u8>, Vec<u8>)> = actions
        .iter()
        .map(|a| (a.nonce, a.hand_id, a.kind, a.my_cards.clone(), a.dealer_cards.clone()))
        .collect();
    <alloy_sol_types::sol_data::Array<(
        alloy_sol_types::sol_data::Uint<8>,
        alloy_sol_types::sol_data::Uint<8>,
        alloy_sol_types::sol_data::Uint<8>,
        alloy_sol_types::sol_data::Array<alloy_sol_types::sol_data::Uint<8>>,
        alloy_sol_types::sol_data::Array<alloy_sol_types::sol_data::Uint<8>>,
    )> as alloy_sol_types::SolType>::abi_encode(&tuples)
}

} // verus!
