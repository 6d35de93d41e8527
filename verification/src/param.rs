//! Configuration of a channel vector, and the arena bytes it asks for.
use vstd::prelude::*;
use crate::layout::align_up;
use crate::layout::checked_mem_align;
use crate::layout::cacheline_aligned;
use crate::layout::lemma_align_up;
use crate::layout::INDEX_SIZE;
use crate::layout::MIN_MSGS;

verus! {

/// What a `ChannelParam` stands for in contracts.
pub ghost struct ChannelConfig {
    pub additional_messages: nat,
    pub message_size: nat,
    pub eventfd: bool,
    pub info: Seq<u8>,
}

/// What a `VectorParam` stands for in contracts.
pub ghost struct VectorConfig {
    pub producers: Seq<ChannelConfig>,
    pub consumers: Seq<ChannelConfig>,
    pub info: Seq<u8>,
}

/// Dimensions of one queue, its wake-up flag and its opaque metadata.
#[derive(Clone, Debug)]
pub struct ChannelParam {
    /// Slots beyond the mandatory three.
    pub additional_messages: usize,
    /// Bytes of one message; zero is not a valid size.
    pub message_size: usize,
    /// Whether the channel carries a wake-up descriptor.
    pub eventfd: bool,
    /// Opaque metadata handed to the peer.
    pub info: Vec<u8>,
}

/// Two ordered lists of channels and the vector's own metadata.
#[derive(Clone, Debug)]
pub struct VectorParam {
    pub producers: Vec<ChannelParam>,
    pub consumers: Vec<ChannelParam>,
    pub info: Vec<u8>,
}

impl View for ChannelParam {
    type V = ChannelConfig;

    open spec fn view(&self) -> ChannelConfig {
        ChannelConfig {
            additional_messages: self.additional_messages as nat,
            message_size: self.message_size as nat,
            eventfd: self.eventfd,
            info: self.info@,
        }
    }
}

/// The configurations of a list of parameters, in order.
pub open spec fn configs(params: Seq<ChannelParam>) -> Seq<ChannelConfig> {
    Seq::new(params.len(), |i: int| params[i]@)
}

impl View for VectorParam {
    type V = VectorConfig;

    open spec fn view(&self) -> VectorConfig {
        VectorConfig {
            producers: configs(self.producers@),
            consumers: configs(self.consumers@),
            info: self.info@,
        }
    }
}

impl ChannelConfig {
    /// A message has at least one byte.
    pub open spec fn wf(self) -> bool {
        self.message_size > 0
    }

    /// Number of message slots of the queue.
    pub open spec fn slots(self) -> int {
        MIN_MSGS as int + self.additional_messages as int
    }

    /// Bytes of the data region: every slot padded to the cache line.
    pub open spec fn data_size(self, cls: int) -> int {
        self.slots() * align_up(self.message_size as int, cls)
    }

    /// Bytes of the index region: `tail`, `head` and one cell per slot,
    /// padded to the cache line.
    pub open spec fn queue_size(self, cls: int) -> int {
        align_up((2 + self.slots()) * (INDEX_SIZE as int), cls)
    }

    /// Bytes of the whole queue inside the arena.
    pub open spec fn shm_size(self, cls: int) -> int {
        self.queue_size(cls) + self.data_size(cls)
    }

    /// A valid queue has at least three slots and takes room in the arena.
    pub proof fn lemma_sizes_positive(self, cls: int)
        requires
            self.wf(),
            cls > 0,
        ensures
            self.slots() >= 3,
            align_up(self.message_size as int, cls) >= self.message_size,
            self.data_size(cls) >= self.slots(),
            self.data_size(cls) >= align_up(self.message_size as int, cls),
            self.queue_size(cls) >= (2 + self.slots()) * 4,
            self.shm_size(cls) > 0,
    {
        lemma_align_up(self.message_size as int, cls);
        lemma_align_up((2 + self.slots()) * 4, cls);
        let n = self.slots();
        let a = align_up(self.message_size as int, cls);
        assert(n * a >= n && n * a >= a) by (nonlinear_arith)
            requires
                n >= 3,
                a >= 1,
        ;
    }
}

/// Bytes that a list of queues takes when laid out back to back.
pub open spec fn total_shm_size(params: Seq<ChannelConfig>, cls: int) -> int
    decreases params.len(),
{
    if params.len() == 0 {
        0
    } else {
        total_shm_size(params.drop_last(), cls) + params.last().shm_size(cls)
    }
}

/// Every configuration in the list has a non-zero message size.
pub open spec fn all_wf(params: Seq<ChannelConfig>) -> bool {
    forall|i: int| 0 <= i < params.len() ==> (#[trigger] params[i]).wf()
}

/// A longer prefix of valid queues never takes fewer bytes.
pub proof fn lemma_total_shm_size_prefix(params: Seq<ChannelConfig>, k: int, cls: int)
    requires
        all_wf(params),
        cls > 0,
        0 <= k <= params.len(),
    ensures
        0 <= total_shm_size(params.take(k), cls) <= total_shm_size(params, cls),
        k < params.len() ==> total_shm_size(params.take(k + 1), cls) == total_shm_size(
            params.take(k),
            cls,
        ) + params[k].shm_size(cls),
    decreases params.len() - k,
{
    if k < params.len() {
        let longer = params.take(k + 1);
        assert(longer.drop_last() =~= params.take(k));
        assert(longer.last() == params[k]);
        params[k].lemma_sizes_positive(cls);
        lemma_total_shm_size_prefix(params, k + 1, cls);
        lemma_total_nonnegative(params.take(k), cls);
    } else {
        assert(params.take(k) =~= params);
        lemma_total_nonnegative(params, cls);
    }
}

/// Valid queues take a non-negative number of bytes.
pub proof fn lemma_total_nonnegative(params: Seq<ChannelConfig>, cls: int)
    requires
        all_wf(params),
        cls > 0,
    ensures
        total_shm_size(params, cls) >= 0,
        params.len() > 0 ==> total_shm_size(params, cls) > 0,
    decreases params.len(),
{
    if params.len() > 0 {
        lemma_total_nonnegative(params.drop_last(), cls);
        params.last().lemma_sizes_positive(cls);
    }
}

impl ChannelParam {
    /// A message has at least one byte.
    pub open spec fn wf(&self) -> bool {
        self@.wf()
    }

    /// A parameter with the given dimensions.
    pub fn new(additional_messages: usize, message_size: usize, eventfd: bool, info: Vec<u8>) -> (r:
        Self)
        ensures
            r@ == (ChannelConfig {
                additional_messages: additional_messages as nat,
                message_size: message_size as nat,
                eventfd,
                info: info@,
            }),
    {
        ChannelParam { additional_messages, message_size, eventfd, info }
    }

    /// A copy with the same dimensions and metadata.
    pub fn duplicate(&self) -> (r: Self)
        ensures
            r@ == self@,
    {
        let info = self.info.clone();
        assert(info@ =~= self.info@);
        ChannelParam {
            additional_messages: self.additional_messages,
            message_size: self.message_size,
            eventfd: self.eventfd,
            info,
        }
    }

    /// Bytes of the data region for the cache line size `cls`.
    pub fn data_size(&self, cls: usize) -> (r: usize)
        requires
            self.wf(),
            cls > 0,
            self@.data_size(cls as int) <= usize::MAX,
        ensures
            r == self@.data_size(cls as int),
    {
        proof {
            self@.lemma_sizes_positive(cls as int);
        }
        let n: usize = MIN_MSGS + self.additional_messages;
        let slot: usize = cacheline_aligned(self.message_size, cls);
        assert(n * slot == self@.data_size(cls as int));
        n * slot
    }

    /// Bytes of the index region for the cache line size `cls`.
    pub fn queue_size(&self, cls: usize) -> (r: usize)
        requires
            cls > 0,
            self@.queue_size(cls as int) <= usize::MAX,
        ensures
            r == self@.queue_size(cls as int),
    {
        proof {
            lemma_align_up((2 + self@.slots()) * 4, cls as int);
        }
        let n: usize = 2 + MIN_MSGS + self.additional_messages;
        cacheline_aligned(n * INDEX_SIZE, cls)
    }

    /// Bytes of the whole queue for the cache line size `cls`.
    pub fn shm_size(&self, cls: usize) -> (r: usize)
        requires
            self.wf(),
            cls > 0,
            self@.shm_size(cls as int) <= usize::MAX,
        ensures
            r == self@.shm_size(cls as int),
            r > 0,
    {
        proof {
            self@.lemma_sizes_positive(cls as int);
        }
        self.queue_size(cls) + self.data_size(cls)
    }

    /// Bytes of the whole queue, or `None` where the message size is zero or
    /// the size does not fit the machine word.
    pub fn checked_shm_size(&self, cls: usize) -> (r: Option<usize>)
        requires
            cls > 0,
        ensures
            r.is_some() <==> self.wf() && self@.shm_size(cls as int) <= usize::MAX,
            r.is_some() ==> r.unwrap() == self@.shm_size(cls as int) && r.unwrap() > 0,
    {
        if self.message_size == 0 {
            return None;
        }
        proof {
            self@.lemma_sizes_positive(cls as int);
            lemma_align_up(self.message_size as int, cls as int);
            lemma_align_up((2 + self@.slots()) * 4, cls as int);
        }
        let n: usize = match MIN_MSGS.checked_add(self.additional_messages) {
            Some(n) => n,
            None => { return None; },
        };
        let cells: usize = match n.checked_add(2) {
            Some(c) => c,
            None => { return None; },
        };
        let index_bytes: usize = match cells.checked_mul(INDEX_SIZE) {
            Some(b) => b,
            None => { return None; },
        };
        let queue: usize = match checked_mem_align(index_bytes, cls) {
            Some(q) => q,
            None => { return None; },
        };
        let slot: usize = match checked_mem_align(self.message_size, cls) {
            Some(s) => s,
            None => {
                proof {
                    let a = align_up(self.message_size as int, cls as int);
                    let k = self@.slots();
                    assert(k * a >= a) by (nonlinear_arith)
                        requires
                            k >= 3,
                            a >= 1,
                    ;
                }
                return None;
            },
        };
        let data: usize = match n.checked_mul(slot) {
            Some(d) => d,
            None => { return None; },
        };
        queue.checked_add(data)
    }
}

/// Bytes of the arena that holds the queues of both groups back to back.
pub fn calc_shm_size(group0: &[ChannelParam], group1: &[ChannelParam], cls: usize) -> (r: usize)
    requires
        cls > 0,
        all_wf(configs(group0@)),
        all_wf(configs(group1@)),
        total_shm_size(configs(group0@) + configs(group1@), cls as int) <= usize::MAX,
    ensures
        r == total_shm_size(configs(group0@) + configs(group1@), cls as int),
{
    let ghost all = configs(group0@) + configs(group1@);
    let mut size: usize = 0;
    let mut i: usize = 0;
    proof {
        assert(all.take(0) =~= Seq::<ChannelConfig>::empty());
    }
    while i < group0.len()
        invariant
            cls > 0,
            all == configs(group0@) + configs(group1@),
            all_wf(all),
            total_shm_size(all, cls as int) <= usize::MAX,
            0 <= i <= group0.len(),
            size == total_shm_size(all.take(i as int), cls as int),
        decreases group0.len() - i,
    {
        proof {
            lemma_total_shm_size_prefix(all, i as int, cls as int);
            lemma_total_shm_size_prefix(all, i as int + 1, cls as int);
            assert(all[i as int] == group0@[i as int]@);
        }
        size = size + group0[i].shm_size(cls);
        i = i + 1;
    }
    let mut j: usize = 0;
    while j < group1.len()
        invariant
            cls > 0,
            all == configs(group0@) + configs(group1@),
            all_wf(all),
            total_shm_size(all, cls as int) <= usize::MAX,
            0 <= j <= group1.len(),
            size == total_shm_size(all.take(group0.len() + j), cls as int),
        decreases group1.len() - j,
    {
        proof {
            let k = group0.len() + j;
            lemma_total_shm_size_prefix(all, k, cls as int);
            lemma_total_shm_size_prefix(all, k + 1, cls as int);
            assert(all[k] == group1@[j as int]@);
        }
        size = size + group1[j].shm_size(cls);
        j = j + 1;
    }
    proof {
        assert(all.take(all.len() as int) =~= all);
    }
    size
}

/// Adds the sizes of `params` to `start`; `None` where a message size is
/// zero or the sum does not fit the machine word.
fn add_shm_sizes(
    all: Ghost<Seq<ChannelConfig>>,
    params: &[ChannelParam],
    first: usize,
    start: usize,
    cls: usize,
) -> (r: Option<usize>)
    requires
        cls > 0,
        first + params@.len() <= all@.len(),
        forall|i: int| 0 <= i < params@.len() ==> all@[first + i] == (#[trigger] params@[i])@,
        all_wf(all@.take(first as int)),
        start == total_shm_size(all@.take(first as int), cls as int),
    ensures
        r.is_some() <==> all_wf(all@.take(first + params@.len())) && total_shm_size(
            all@.take(first + params@.len()),
            cls as int,
        ) <= usize::MAX,
        r matches Some(size) ==> size == total_shm_size(
            all@.take(first + params@.len()),
            cls as int,
        ),
{
    let mut size: usize = start;
    let mut i: usize = 0;
    let ghost end = all@.take(first + params@.len());
    while i < params.len()
        invariant
            cls > 0,
            0 <= i <= params@.len(),
            first + params@.len() <= all@.len(),
            forall|k: int| 0 <= k < params@.len() ==> all@[first + k] == (#[trigger] params@[k])@,
            all_wf(all@.take(first + i)),
            size == total_shm_size(all@.take(first + i), cls as int),
            end == all@.take(first + params@.len()),
        decreases params@.len() - i,
    {
        let ghost at = first + i;
        proof {
            assert(all@[at] == params@[i as int]@);
            assert(end[at] == all@[at]);
            assert(end.take(at) =~= all@.take(at));
            assert(end.take(at + 1) =~= all@.take(at + 1));
            assert(all@.take(at + 1).drop_last() =~= all@.take(at));
            assert(all@.take(at + 1).last() == all@[at]);
        }
        let one: usize = match params[i].checked_shm_size(cls) {
            Some(s) => s,
            None => {
                proof {
                    if all_wf(end) {
                        assert(end[at].wf());
                        lemma_total_shm_size_prefix(end, at + 1, cls as int);
                        lemma_total_nonnegative(end.take(at), cls as int);
                    }
                }
                return None;
            },
        };
        size = match size.checked_add(one) {
            Some(s) => s,
            None => {
                proof {
                    if all_wf(end) {
                        lemma_total_shm_size_prefix(end, at + 1, cls as int);
                    }
                }
                return None;
            },
        };
        proof {
            assert forall|k: int| 0 <= k < all@.take(at + 1).len() implies (#[trigger] all@.take(
                at + 1,
            )[k]).wf() by {
                if k < at {
                    assert(all@.take(at)[k].wf());
                }
            }
        }
        i = i + 1;
    }
    Some(size)
}

/// Bytes of the arena that holds the queues of both groups back to back, or
/// `None` where a message size is zero or the sum does not fit the machine
/// word.
pub fn checked_calc_shm_size(group0: &[ChannelParam], group1: &[ChannelParam], cls: usize) -> (r:
    Option<usize>)
    requires
        cls > 0,
    ensures
        r.is_some() <==> all_wf(configs(group0@) + configs(group1@)) && total_shm_size(
            configs(group0@) + configs(group1@),
            cls as int,
        ) <= usize::MAX,
        r matches Some(size) ==> size == total_shm_size(
            configs(group0@) + configs(group1@),
            cls as int,
        ),
{
    let ghost all = configs(group0@) + configs(group1@);
    proof {
        assert(all.take(0) =~= Seq::<ChannelConfig>::empty());
        assert forall|i: int| 0 <= i < group1@.len() implies all[group0@.len() + i] == (
        #[trigger] group1@[i])@ by {}
    }
    let first = match add_shm_sizes(Ghost(all), group0, 0, 0, cls) {
        Some(s) => s,
        None => {
            proof {
                if all_wf(all) {
                    let shorter = all.take(group0@.len() as int);
                    assert forall|k: int| 0 <= k < shorter.len() implies (#[trigger] shorter[k]).wf() by {
                        assert(all[k].wf());
                    }
                    lemma_total_shm_size_prefix(all, group0@.len() as int, cls as int);
                }
            }
            return None;
        },
    };
    proof {
        assert(all.take(all.len() as int) =~= all);
    }
    add_shm_sizes(Ghost(all), group1, group0.len(), first, cls)
}

/// The sum of two multiples is a multiple.
pub proof fn lemma_sum_of_multiples(a: int, b: int, m: int)
    requires
        m > 0,
        a % m == 0,
        b % m == 0,
    ensures
        (a + b) % m == 0,
{
    vstd::arithmetic::div_mod::lemma_fundamental_div_mod(a, m);
    vstd::arithmetic::div_mod::lemma_fundamental_div_mod(b, m);
    let qa = a / m;
    let qb = b / m;
    assert(a + b == (qa + qb) * m) by (nonlinear_arith)
        requires
            a == m * qa,
            b == m * qb,
    ;
    vstd::arithmetic::div_mod::lemma_fundamental_div_mod_converse(a + b, m, qa + qb, 0);
}

/// A multiple of a multiple is a multiple.
pub proof fn lemma_product_of_multiple(n: int, a: int, m: int)
    requires
        m > 0,
        a % m == 0,
    ensures
        (n * a) % m == 0,
{
    vstd::arithmetic::div_mod::lemma_fundamental_div_mod(a, m);
    let qa = a / m;
    assert(n * a == (n * qa) * m) by (nonlinear_arith)
        requires
            a == m * qa,
    ;
    vstd::arithmetic::div_mod::lemma_fundamental_div_mod_converse(n * a, m, n * qa, 0);
}

/// Queues laid out back to back all start at a multiple of the cache line
/// size.
pub proof fn lemma_total_aligned(params: Seq<ChannelConfig>, cls: int)
    requires
        cls > 0,
    ensures
        total_shm_size(params, cls) % cls == 0,
    decreases params.len(),
{
    if params.len() > 0 {
        lemma_total_aligned(params.drop_last(), cls);
        let last = params.last();
        lemma_align_up_any(last.message_size as int, cls);
        lemma_align_up_any((2 + last.slots()) * 4, cls);
        lemma_product_of_multiple(last.slots(), align_up(last.message_size as int, cls), cls);
        lemma_sum_of_multiples(last.queue_size(cls), last.data_size(cls), cls);
        lemma_sum_of_multiples(
            total_shm_size(params.drop_last(), cls),
            last.shm_size(cls),
            cls,
        );
    } else {
        vstd::arithmetic::div_mod::lemma_fundamental_div_mod_converse(0, cls, 0, 0);
    }
}

/// A rounded size is a multiple of the alignment.
pub proof fn lemma_align_up_any(size: int, cls: int)
    requires
        cls > 0,
    ensures
        align_up(size, cls) % cls == 0,
{
    let k = (size + cls - 1) / cls;
    vstd::arithmetic::div_mod::lemma_fundamental_div_mod_converse(k * cls, cls, k, 0);
}

impl ChannelConfig {
    /// The size of a queue is a multiple of the cache line size.
    pub proof fn lemma_shm_size_aligned(self, cls: int)
        requires
            cls > 0,
        ensures
            self.queue_size(cls) % cls == 0,
            self.shm_size(cls) % cls == 0,
    {
        lemma_align_up_any(self.message_size as int, cls);
        lemma_align_up_any((2 + self.slots()) * 4, cls);
        lemma_product_of_multiple(self.slots(), align_up(self.message_size as int, cls), cls);
        lemma_sum_of_multiples(self.queue_size(cls), self.data_size(cls), cls);
    }
}

} // verus!
