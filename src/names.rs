use vstd::prelude::*;
use vstd::slice::slice_to_vec;
use vstd::string::StringSliceAdditionalSpecFns;

verus! {

/// Number of ids reserved at construction for the synthetic accounts and assets.
pub const NR_BUILT_IN_ACCOUNTS: usize = 8;

/// Aggregate account: net worth, derived by reporting code from raw balances.
pub const NET_WORTH: usize = 0;

/// Aggregate account: yield, derived by reporting code from raw balances.
pub const YIELD: usize = 1;

/// Aggregate account: total assets, derived by reporting code from raw balances.
pub const ASSETS: usize = 2;

/// Aggregate account: return on investment, derived by reporting code.
pub const ROI: usize = 3;

/// Account that money is spent into; transfers to it count as spending.
pub const SPENDING: usize = 4;

/// Account that income comes from; transfers out of it count as receiving.
pub const RECEIVING: usize = 5;

/// Asset: the primary fiat currency.
pub const FIAT: usize = 6;

/// Asset: fiat kept outside the spendable total.
pub const SHADOW_FIAT: usize = 7;

/// The closed set of reserved names, each with its fixed id.
#[derive(Clone, Copy, Debug, PartialEq, Eq, Structural)]
pub enum BuiltIn {
    NetWorth,
    Yield,
    Assets,
    Roi,
    Spending,
    Receiving,
    Fiat,
    ShadowFiat,
}

pub open spec fn built_in_id(b: BuiltIn) -> nat {
    match b {
        BuiltIn::NetWorth => NET_WORTH as nat,
        BuiltIn::Yield => YIELD as nat,
        BuiltIn::Assets => ASSETS as nat,
        BuiltIn::Roi => ROI as nat,
        BuiltIn::Spending => SPENDING as nat,
        BuiltIn::Receiving => RECEIVING as nat,
        BuiltIn::Fiat => FIAT as nat,
        BuiltIn::ShadowFiat => SHADOW_FIAT as nat,
    }
}

impl BuiltIn {
    /// The reserved id of this built-in.
    pub fn id(&self) -> (r: usize)
        ensures
            r == built_in_id(*self),
            r < NR_BUILT_IN_ACCOUNTS,
    {
        match self {
            BuiltIn::NetWorth => NET_WORTH,
            BuiltIn::Yield => YIELD,
            BuiltIn::Assets => ASSETS,
            BuiltIn::Roi => ROI,
            BuiltIn::Spending => SPENDING,
            BuiltIn::Receiving => RECEIVING,
            BuiltIn::Fiat => FIAT,
            BuiltIn::ShadowFiat => SHADOW_FIAT,
        }
    }
}

/// The names of the built-ins, in id order, as ASCII bytes: "net", "yield",
/// "assets", "roi", "spent", "income", "fiat", "shadow".
pub open spec fn built_in_names() -> Seq<Seq<u8>> {
    seq![
        seq![110u8, 101, 116],
        seq![121u8, 105, 101, 108, 100],
        seq![97u8, 115, 115, 101, 116, 115],
        seq![114u8, 111, 105],
        seq![115u8, 112, 101, 110, 116],
        seq![105u8, 110, 99, 111, 109, 101],
        seq![102u8, 105, 97, 116],
        seq![115u8, 104, 97, 100, 111, 119],
    ]
}

/// The names after `n` is registered into `names`.
pub open spec fn registered(names: Seq<Seq<u8>>, n: Seq<u8>) -> Seq<Seq<u8>> {
    if names.contains(n) {
        names
    } else {
        names.push(n)
    }
}

/// Bidirectional map between names and dense ids: the id of a name is its
/// index in `names`.
pub struct NameBank {
    names: Vec<Vec<u8>>,
}

impl View for NameBank {
    type V = Seq<Seq<u8>>;

    closed spec fn view(&self) -> Seq<Seq<u8>> {
        self.names@.map_values(|v: Vec<u8>| v@)
    }
}

fn bytes_equal(a: &[u8], b: &[u8]) -> (r: bool)
    ensures
        r == (a@ == b@),
{
    if a.len() != b.len() {
        return false;
    }
    let mut i: usize = 0;
    while i < a.len()
        invariant
            a@.len() == b@.len(),
            0 <= i <= a@.len(),
            forall|k: int| 0 <= k < i ==> a@[k] == b@[k],
        decreases a@.len() - i,
    {
        if a[i] != b[i] {
            return false;
        }
        i = i + 1;
    }
    assert(a@ =~= b@);
    true
}

impl NameBank {
    /// Ids are unique, and the reserved names hold the first ids in fixed order.
    pub open spec fn wf(&self) -> bool {
        &&& self@.no_duplicates()
        &&& self@.len() >= NR_BUILT_IN_ACCOUNTS
        &&& self@.take(NR_BUILT_IN_ACCOUNTS as int) == built_in_names()
    }

    /// A bank that holds the built-in names only.
    pub fn new() -> (r: NameBank)
        ensures
            r.wf(),
            r@ == built_in_names(),
    {
        let mut names: Vec<Vec<u8>> = Vec::new();
        names.push(vec![110u8, 101, 116]);
        names.push(vec![121u8, 105, 101, 108, 100]);
        names.push(vec![97u8, 115, 115, 101, 116, 115]);
        names.push(vec![114u8, 111, 105]);
        names.push(vec![115u8, 112, 101, 110, 116]);
        names.push(vec![105u8, 110, 99, 111, 109, 101]);
        names.push(vec![102u8, 105, 97, 116]);
        names.push(vec![115u8, 104, 97, 100, 111, 119]);
        let r = NameBank { names };
        assert(r@ =~= built_in_names());
        assert(r@.take(NR_BUILT_IN_ACCOUNTS as int) =~= built_in_names());
        r
    }

    pub fn len(&self) -> (r: usize)
        ensures
            r == self@.len(),
    {
        self.names.len()
    }

    /// The id of `name`, if it was registered.
    pub fn lookup(&self, name: &[u8]) -> (r: Option<usize>)
        ensures
            match r {
                Some(i) => i < self@.len() && self@[i as int] == name@,
                None => !self@.contains(name@),
            },
    {
        let mut i: usize = 0;
        while i < self.names.len()
            invariant
                0 <= i <= self@.len(),
                self@.len() == self.names@.len(),
                forall|k: int| 0 <= k < i ==> self@[k] != name@,
            decreases self@.len() - i,
        {
            if bytes_equal(self.names[i].as_slice(), name) {
                return Some(i);
            }
            i = i + 1;
        }
        None
    }

    /// The id of `name`: the existing one for a name seen before, else the next id.
    pub fn register_bytes(&mut self, name: &[u8]) -> (r: usize)
        requires
            old(self).wf(),
            old(self)@.len() < usize::MAX,
        ensures
            final(self).wf(),
            final(self)@ == registered(old(self)@, name@),
            final(self)@.len() <= old(self)@.len() + 1,
            forall|i: int| 0 <= i < old(self)@.len() ==> #[trigger] final(self)@[i] == old(self)@[i],
            r < final(self)@.len(),
            final(self)@[r as int] == name@,
            old(self)@.contains(name@) ==> r < old(self)@.len(),
            !old(self)@.contains(name@) ==> r == old(self)@.len(),
    {
        match self.lookup(name) {
            Some(i) => i,
            None => {
                let id = self.names.len();
                let v = slice_to_vec(name);
                self.names.push(v);
                assert(self@ =~= old(self)@.push(name@));
                assert(self@.take(NR_BUILT_IN_ACCOUNTS as int) =~= old(self)@.take(
                    NR_BUILT_IN_ACCOUNTS as int,
                ));
                id
            },
        }
    }

    /// The id of `name`: the existing one for a name seen before, else the next id.
    pub fn register(&mut self, name: &str) -> (r: usize)
        requires
            old(self).wf(),
            old(self)@.len() < usize::MAX,
        ensures
            final(self).wf(),
            final(self)@ == registered(old(self)@, name.spec_bytes()),
            r < final(self)@.len(),
            final(self)@[r as int] == name.spec_bytes(),
            old(self)@.contains(name.spec_bytes()) ==> r < old(self)@.len(),
            !old(self)@.contains(name.spec_bytes()) ==> r == old(self)@.len(),
    {
        self.register_bytes(name.as_bytes())
    }

    /// The name of a previously issued id.
    pub fn resolve(&self, id: usize) -> (r: Vec<u8>)
        requires
            id < self@.len(),
        ensures
            r@ == self@[id as int],
    {
        slice_to_vec(self.names[id].as_slice())
    }
}

/// Registering a name twice gives the same id and leaves the bank as it was
/// after the first time; two distinct names get distinct ids, and registering
/// one name never moves the id of another.
pub proof fn lemma_register_idempotent(names: Seq<Seq<u8>>, a: Seq<u8>, b: Seq<u8>)
    requires
        names.no_duplicates(),
    ensures
        registered(registered(names, a), a) == registered(names, a),
        ({
            let n2 = registered(registered(names, a), b);
            &&& n2.no_duplicates()
            &&& n2[n2.index_of(a)] == a
            &&& n2[n2.index_of(b)] == b
            &&& (a == b <==> n2.index_of(a) == n2.index_of(b))
            &&& n2.index_of(a) == registered(names, a).index_of(a)
        }),
{
    let n1 = registered(names, a);
    let n2 = registered(n1, b);
    assert(n1.contains(a)) by {
        if !names.contains(a) {
            assert(n1[names.len() as int] == a);
        }
    }
    assert(n2.contains(b)) by {
        if !n1.contains(b) {
            assert(n2[n1.len() as int] == b);
        }
    }
    assert(n1.no_duplicates());
    assert(n2.no_duplicates());
    assert(n2.contains(a)) by {
        let i = n1.index_of(a);
        assert(n2[i] == a);
    }
    let ia = n2.index_of(a);
    let ib = n2.index_of(b);
    assert(n2[ia] == a);
    assert(n2[ib] == b);
    let ja = n1.index_of(a);
    assert(n1[ja] == a);
    assert(n2[ja] == a);
}

/// Whatever names a well-formed bank has taken, its first ids are the
/// built-in names in their fixed order.
pub proof fn lemma_built_ins_fixed(bank: &NameBank)
    requires
        bank.wf(),
    ensures
        forall|i: int|
            0 <= i < NR_BUILT_IN_ACCOUNTS ==> #[trigger] bank@[i] == built_in_names()[i],
{
    assert forall|i: int| 0 <= i < NR_BUILT_IN_ACCOUNTS implies #[trigger] bank@[i]
        == built_in_names()[i] by {
        assert(bank@.take(NR_BUILT_IN_ACCOUNTS as int)[i] == bank@[i]);
    }
}

} // verus!
