//! The genesis builder: collects the messages that a chain runs at genesis
//! and its configuration, and puts code uploads before everything else.
use vstd::prelude::*;
use crate::hash::{sha256, sha256_of};
use crate::types::{Addr, Coin, Config, Hash256, Message, spec_compute_address};

verus! {

/// Who becomes the admin of an instantiated contract.
pub enum AdminOption {
    SetToAddr(Addr),
    SetToSelf,
    SetToNone,
}

/// The admin that `admin` picks for the contract at address `contract`.
pub open spec fn chosen_admin(admin: AdminOption, contract: Addr) -> Option<Addr> {
    match admin {
        AdminOption::SetToAddr(a) => Some(a),
        AdminOption::SetToSelf => Some(contract),
        AdminOption::SetToNone => None,
    }
}

/// The address that genesis messages are sent from: all zero bytes.
pub open spec fn genesis_sender() -> Seq<u8> {
    Seq::new(32, |i: int| 0u8)
}

/// Why a genesis state cannot be built.
#[derive(Debug, PartialEq, Eq, Structural)]
pub enum GenesisError {
    /// `set_config` was called a second time.
    ConfigSetTwice,
    /// `finalize` was called before any `set_config`.
    ConfigNotSet,
}

/// What a chain starts from: its configuration and the messages it runs.
pub struct GenesisState {
    pub config: Config,
    pub msgs: Vec<Message>,
}

/// The code uploads among `h`, in order.
pub open spec fn uploads(h: Seq<Message>) -> Seq<Message>
    decreases h.len(),
{
    if h.len() == 0 {
        Seq::empty()
    } else if h.last() is StoreCode {
        uploads(h.drop_last()).push(h.last())
    } else {
        uploads(h.drop_last())
    }
}

/// The messages among `h` that are not code uploads, in order.
pub open spec fn non_uploads(h: Seq<Message>) -> Seq<Message>
    decreases h.len(),
{
    if h.len() == 0 {
        Seq::empty()
    } else if h.last() is StoreCode {
        non_uploads(h.drop_last())
    } else {
        non_uploads(h.drop_last()).push(h.last())
    }
}

proof fn lemma_split_push(h: Seq<Message>, m: Message)
    ensures
        uploads(h.push(m)) == if m is StoreCode { uploads(h).push(m) } else { uploads(h) },
        non_uploads(h.push(m)) == if m is StoreCode { non_uploads(h) } else { non_uploads(h).push(m) },
{
    assert(h.push(m).drop_last() =~= h);
}

/// The uploads are all code uploads and the rest are none; together they hold
/// every message of `h` once.
pub proof fn law_uploads_and_rest_partition(h: Seq<Message>)
    ensures
        forall|i: int| 0 <= i < uploads(h).len() ==> #[trigger] uploads(h)[i] is StoreCode,
        forall|i: int| 0 <= i < non_uploads(h).len() ==> !(#[trigger] non_uploads(h)[i] is StoreCode),
        (uploads(h) + non_uploads(h)).to_multiset() == h.to_multiset(),
    decreases h.len(),
{
    broadcast use vstd::seq_lib::lemma_multiset_commutative, vstd::seq_lib::to_multiset_build;

    if h.len() == 0 {
        assert(uploads(h) + non_uploads(h) =~= h);
    } else {
        let g = h.drop_last();
        let m = h.last();
        law_uploads_and_rest_partition(g);
        assert(h =~= g.push(m));
        lemma_split_push(g, m);
        assert((uploads(g) + non_uploads(g)).to_multiset() == g.to_multiset());
        assert(uploads(h).to_multiset().add(non_uploads(h).to_multiset()) =~= uploads(g).to_multiset().add(
            non_uploads(g).to_multiset(),
        ).insert(m));
    }
}

/// Helper for building a genesis state.
pub struct GenesisBuilder {
    cfg: Option<Config>,
    code_msgs: Vec<Message>,
    other_msgs: Vec<Message>,
    history: Ghost<Seq<Message>>,
}

impl GenesisBuilder {
    #[verifier::type_invariant]
    spec fn queues_follow_history(&self) -> bool {
        &&& self.code_msgs@ == uploads(self.history@)
        &&& self.other_msgs@ == non_uploads(self.history@)
    }

    /// The configuration set so far, if any.
    pub closed spec fn config(&self) -> Option<Config> {
        self.cfg
    }

    /// Every message queued so far, in the order of the calls that queued it.
    pub closed spec fn history(&self) -> Seq<Message> {
        self.history@
    }

    /// A builder with no configuration and no messages.
    pub fn new() -> (b: Self)
        ensures
            b.config() is None,
            b.history() == Seq::<Message>::empty(),
    {
        GenesisBuilder { cfg: None, code_msgs: Vec::new(), other_msgs: Vec::new(), history: Ghost(Seq::empty()) }
    }

    /// Queues `m` after everything queued so far.
    fn queue(&mut self, m: Message)
        ensures
            final(self).history() == old(self).history().push(m),
            final(self).config() == old(self).config(),
    {
        proof {
            use_type_invariant(&*self);
        }
        let mut taken = GenesisBuilder::new();
        std::mem::swap(&mut taken, self);
        let GenesisBuilder { cfg, mut code_msgs, mut other_msgs, history } = taken;
        proof {
            lemma_split_push(history@, m);
        }
        let ghost h = history@.push(m);
        if let Message::StoreCode { .. } = &m {
            code_msgs.push(m);
        } else {
            other_msgs.push(m);
        }
        *self = GenesisBuilder { cfg, code_msgs, other_msgs, history: Ghost(h) };
    }

    /// Queues the upload of `wasm_byte_code` and returns its hash.
    pub fn store_code(&mut self, wasm_byte_code: Vec<u8>) -> (code_hash: Hash256)
        ensures
            code_hash.0@ == sha256_of(wasm_byte_code@),
            final(self).history() == old(self).history().push(
                Message::StoreCode { wasm_byte_code: wasm_byte_code },
            ),
            final(self).config() == old(self).config(),
    {
        let code_hash = Hash256(sha256(wasm_byte_code.as_slice()));
        self.queue(Message::StoreCode { wasm_byte_code });
        code_hash
    }

    /// Queues the instantiation of the code with hash `code_hash`, sent from
    /// the genesis sender, and returns the address of the new contract.
    pub fn instantiate(
        &mut self,
        code_hash: Hash256,
        msg: Vec<u8>,
        salt: Vec<u8>,
        funds: Vec<Coin>,
        admin: AdminOption,
    ) -> (contract: Addr)
        ensures
            contract.0@ == spec_compute_address(genesis_sender(), code_hash.0@, salt@),
            final(self).history() == old(self).history().push(
                Message::Instantiate {
                    code_hash: code_hash,
                    msg: msg,
                    salt: salt,
                    funds: funds,
                    admin: chosen_admin(admin, contract),
                },
            ),
            final(self).config() == old(self).config(),
    {
        let sender = Addr::mock(0);
        assert(sender.0@ =~= genesis_sender());
        let contract = Addr::compute(&sender, &code_hash, salt.as_slice());
        let admin = match admin {
            AdminOption::SetToAddr(addr) => Some(addr),
            AdminOption::SetToSelf => Some(contract),
            AdminOption::SetToNone => None,
        };
        self.queue(Message::Instantiate { code_hash, msg, salt, funds, admin });
        contract
    }

    /// Queues the upload of `wasm_byte_code`, then the instantiation of it,
    /// and returns the address of the new contract.
    pub fn store_code_and_instantiate(
        &mut self,
        wasm_byte_code: Vec<u8>,
        msg: Vec<u8>,
        salt: Vec<u8>,
        funds: Vec<Coin>,
        admin: AdminOption,
    ) -> (contract: Addr)
        ensures
            contract.0@ == spec_compute_address(genesis_sender(), sha256_of(wasm_byte_code@), salt@),
            final(self).history().len() == old(self).history().len() + 2,
            final(self).history().drop_last().drop_last() == old(self).history(),
            final(self).history().drop_last().last() == (Message::StoreCode { wasm_byte_code: wasm_byte_code }),
            (final(self).history().last() matches Message::Instantiate { code_hash, msg: m, salt: s, funds: f, admin: a }
                && code_hash.0@ == sha256_of(wasm_byte_code@) && m == msg && s == salt && f == funds
                && a == chosen_admin(admin, contract)),
            final(self).config() == old(self).config(),
    {
        let code_hash = self.store_code(wasm_byte_code);
        let contract = self.instantiate(code_hash, msg, salt, funds, admin);
        contract
    }

    /// Queues the execution of `msg` on `contract`, sent with `funds`.
    pub fn execute(&mut self, contract: Addr, msg: Vec<u8>, funds: Vec<Coin>)
        ensures
            final(self).history() == old(self).history().push(
                Message::Execute { contract: contract, msg: msg, funds: funds },
            ),
            final(self).config() == old(self).config(),
    {
        self.queue(Message::Execute { contract, msg, funds });
    }

    /// Sets the chain's configuration; it can be set once only.
    pub fn set_config(&mut self, cfg: Config) -> (r: Result<(), GenesisError>)
        ensures
            r is Ok <==> old(self).config() is None,
            r is Ok ==> final(self).config() == Some(cfg),
            r is Err ==> r == Err::<(), GenesisError>(GenesisError::ConfigSetTwice)
                && final(self).config() == old(self).config(),
            final(self).history() == old(self).history(),
    {
        proof {
            use_type_invariant(&*self);
        }
        if self.cfg.is_some() {
            return Err(GenesisError::ConfigSetTwice);
        }
        self.cfg = Some(cfg);
        Ok(())
    }

    /// The genesis state: the configuration, then every queued code upload
    /// followed by every other queued message, each group in the order it
    /// was queued.
    pub fn finalize(self) -> (r: Result<GenesisState, GenesisError>)
        ensures
            r is Ok <==> self.config() is Some,
            r matches Ok(state) ==> state.config == self.config().unwrap()
                && state.msgs@ == uploads(self.history()) + non_uploads(self.history())
                && state.msgs@.to_multiset() == self.history().to_multiset(),
            r matches Ok(state) ==> forall|i: int, j: int|
                0 <= i < j < state.msgs@.len() && (#[trigger] state.msgs@[j] is StoreCode)
                    ==> (#[trigger] state.msgs@[i] is StoreCode),
            r is Err ==> r == Err::<GenesisState, GenesisError>(GenesisError::ConfigNotSet),
    {
        proof {
            use_type_invariant(&self);
            law_uploads_and_rest_partition(self.history@);
        }
        let GenesisBuilder { cfg, code_msgs, other_msgs, history } = self;
        let config = match cfg {
            Some(c) => c,
            None => {
                return Err(GenesisError::ConfigNotSet);
            },
        };
        let mut msgs = code_msgs;
        let mut rest = other_msgs;
        let ghost code = msgs@;
        let ghost others = rest@;
        msgs.append(&mut rest);
        assert forall|i: int, j: int|
            0 <= i < j < msgs@.len() && (#[trigger] msgs@[j] is StoreCode) implies (#[trigger] msgs@[i] is StoreCode) by {
            if j < code.len() {
                assert(msgs@[i] == code[i]);
            } else {
                assert(msgs@[j] == others[j - code.len()]);
                assert(!(non_uploads(history@)[j - code.len()] is StoreCode));
            }
        }
        Ok(GenesisState { config, msgs })
    }
}

impl Default for GenesisBuilder {
    /// A builder with no configuration and no messages.
    fn default() -> (b: Self)
        ensures
            b.config() is None,
            b.history() == Seq::<Message>::empty(),
    {
        GenesisBuilder::new()
    }
}

} // verus!
