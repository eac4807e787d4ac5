//! Getting memory to test: how far a large request may go before it starves
//! the machine, and what is refused on the way.

use crate::text::{self, chars_of, decimal_string, hex_string, same_chars, string_of, trim};
use vstd::prelude::*;
use vstd::string::StringExecFns;

verus! {

/// Why memory could not be had. What the operating system said is kept as text.
#[derive(Debug)]
pub enum AllocError {
    ZeroSize,
    Mmap { source: String },
    Mlock { source: String },
    Mprotect { source: String },
    Exhausted { available: u64 },
    DevMemAlignment { phys_start: u64, len: usize },
    DevMemOpen { source: String },
    DevMemMap { source: String },
}

impl AllocError {
    /// The message of the error.
    pub open spec fn shown(&self) -> Seq<char> {
        match *self {
            AllocError::ZeroSize => "requested size must be non-zero"@,
            AllocError::Mmap { source } => "mmap failed: "@ + source@,
            AllocError::Mlock { source } =>
                "mlock failed (are you root or do you have CAP_IPC_LOCK?): "@ + source@,
            AllocError::Mprotect { source } => "mprotect failed while activating chunk: "@
                + source@,
            AllocError::Exhausted { available } =>
                "could not lock any memory below the headroom floor ("@ + text::decimal(
                available as int,
            ) + " bytes available)"@,
            AllocError::DevMemAlignment { phys_start, len } =>
                "/dev/mem physical range must be page-aligned (start 0x"@ + text::hex(
                phys_start as int,
            ) + ", len 0x"@ + text::hex(len as int) + ")"@,
            AllocError::DevMemOpen { source } => "could not open /dev/mem: "@ + source@,
            AllocError::DevMemMap { source } =>
                "could not map physical range through /dev/mem: "@ + source@,
        }
    }

    /// The message of the error.
    pub fn to_string(&self) -> (s: String)
        ensures
            s@ == self.shown(),
    {
        let mut s = String::new();
        match self {
            AllocError::ZeroSize => {
                s.append("requested size must be non-zero");
            },
            AllocError::Mmap { source } => {
                s.append("mmap failed: ");
                s.append(source);
            },
            AllocError::Mlock { source } => {
                s.append("mlock failed (are you root or do you have CAP_IPC_LOCK?): ");
                s.append(source);
            },
            AllocError::Mprotect { source } => {
                s.append("mprotect failed while activating chunk: ");
                s.append(source);
            },
            AllocError::Exhausted { available } => {
                s.append("could not lock any memory below the headroom floor (");
                s.append(&decimal_string(*available));
                s.append(" bytes available)");
            },
            AllocError::DevMemAlignment { phys_start, len } => {
                s.append("/dev/mem physical range must be page-aligned (start 0x");
                s.append(&hex_string(*phys_start));
                s.append(", len 0x");
                s.append(&hex_string(*len as u64));
                s.append(")");
            },
            AllocError::DevMemOpen { source } => {
                s.append("could not open /dev/mem: ");
                s.append(source);
            },
            AllocError::DevMemMap { source } => {
                s.append("could not map physical range through /dev/mem: ");
                s.append(source);
            },
        }
        assert(s@ =~= self.shown());
        s
    }

    /// What the operator can do about the error, if anything.
    pub open spec fn remedy(&self) -> Option<Seq<char>> {
        match *self {
            AllocError::Mlock { .. } => Some(
                "run as root, raise the mlock limit (ulimit -l unlimited), or grant the capability: sudo setcap cap_ipc_lock+ep $(which ferrite)"@,
            ),
            AllocError::Exhausted { .. } => Some(
                "free memory (stop services, drop caches) or lower --headroom to allow allocation closer to the limit"@,
            ),
            AllocError::DevMemMap { .. } => Some(
                "/dev/mem RAM access requires a kernel built with CONFIG_STRICT_DEVMEM=n (Unraid and some appliance kernels); most distros block it"@,
            ),
            AllocError::DevMemOpen { .. } => Some("run as root to open /dev/mem"@),
            _ => None,
        }
    }

    /// What the operator can do about the error, if anything.
    #[must_use]
    pub fn help(&self) -> (hint: Option<&'static str>)
        ensures
            hint is Some <==> self.remedy() is Some,
            hint matches Some(h) ==> self.remedy() == Some(h@),
    {
        match self {
            AllocError::Mlock { .. } => Some(
                "run as root, raise the mlock limit (ulimit -l unlimited), or grant the capability: sudo setcap cap_ipc_lock+ep $(which ferrite)",
            ),
            AllocError::Exhausted { .. } => Some(
                "free memory (stop services, drop caches) or lower --headroom to allow allocation closer to the limit",
            ),
            AllocError::DevMemMap { .. } => Some(
                "/dev/mem RAM access requires a kernel built with CONFIG_STRICT_DEVMEM=n (Unraid and some appliance kernels); most distros block it",
            ),
            AllocError::DevMemOpen { .. } => Some("run as root to open /dev/mem"),
            _ => None,
        }
    }
}

/// Why the chunked walk stopped.
#[derive(Debug)]
pub enum StopReason {
    /// All of the request was activated.
    Completed,
    /// Too little memory was left before the next chunk.
    HeadroomFloor { available: u64 },
    /// A chunk could not be activated; the walk kept what it had.
    ChunkFailed(AllocError),
}

/// How much of a request was met, and why the walk stopped.
#[derive(Debug)]
pub struct AllocOutcome {
    pub requested: usize,
    pub achieved: usize,
    pub stop: StopReason,
}

/// The step of a budgeted allocation: large enough that the calls per chunk cost
/// nothing, small enough that the floor is noticed in time.
pub const CHUNK_BYTES: usize = 536_870_912;

/// The size of a page that a mapping is made of.
pub const MAP_ALIGN: u64 = 4096;

/// What a walk asked of the machine, and the answer.
pub enum HostCall {
    /// How much memory is available; `None` when it cannot be read.
    Available { reading: Option<u64> },
    /// Activate `len` bytes from `offset` on; the error, if it failed.
    Activate { offset: int, len: int, error: Option<AllocError> },
}

/// The machine that the memory comes from.
///
/// Nothing is promised of its answers. Each host says for itself what `calls` is,
/// unless it is ordinary Rust code.
pub trait ChunkHost {
    /// What was asked so far.
    open spec fn calls(&self) -> Seq<HostCall> {
        Seq::empty()
    }

    /// How many bytes are available now, if that can be read.
    fn available(&mut self) -> (reading: Option<u64>)
        ensures
            final(self).calls() == old(self).calls().push(HostCall::Available { reading }),
    ;

    /// Make `len` bytes from `offset` on ready for use.
    fn activate(&mut self, offset: usize, len: usize) -> (r: Result<(), AllocError>)
        ensures
            final(self).calls() == old(self).calls().push(
                HostCall::Activate { offset: offset as int, len: len as int, error: error_of(r) },
            ),
    ;
}

/// The error of a result, if it is one.
pub open spec fn error_of(r: Result<(), AllocError>) -> Option<AllocError> {
    match r {
        Ok(_) => None,
        Err(e) => Some(e),
    }
}

/// A machine that never runs out, for dry runs.
pub struct UnlimitedHost {
    made: Ghost<Seq<HostCall>>,
}

impl UnlimitedHost {
    /// A machine that was asked nothing yet.
    pub fn new() -> (host: Self)
        ensures
            host.calls() == Seq::<HostCall>::empty(),
    {
        UnlimitedHost { made: Ghost(Seq::empty()) }
    }
}

impl ChunkHost for UnlimitedHost {
    closed spec fn calls(&self) -> Seq<HostCall> {
        self.made@
    }

    fn available(&mut self) -> (reading: Option<u64>)
        ensures
            reading is None,
    {
        self.made = Ghost(self.made@.push(HostCall::Available { reading: None }));
        None
    }

    fn activate(&mut self, offset: usize, len: usize) -> (r: Result<(), AllocError>)
        ensures
            r is Ok,
    {
        self.made = Ghost(
            self.made@.push(
                HostCall::Activate { offset: offset as int, len: len as int, error: None },
            ),
        );
        Ok(())
    }
}

/// The length of the chunk that starts at `offset`.
pub open spec fn chunk_len(total: int, chunk: int, offset: int) -> int {
    if chunk < total - offset {
        chunk
    } else {
        total - offset
    }
}

/// Whether a reading leaves room for `len` bytes above the headroom. The sum is
/// capped at the largest reading there is.
pub open spec fn leaves_room(reading: Option<u64>, headroom: int, len: int) -> bool {
    match reading {
        Some(available) => if headroom + len > u64::MAX {
            available == u64::MAX
        } else {
            available >= headroom + len
        },
        None => true,
    }
}

/// Whether chunk `k` was asked for with room to spare and activated.
pub open spec fn chunk_activated(
    calls: Seq<HostCall>,
    total: int,
    chunk: int,
    headroom: int,
    k: int,
) -> bool {
    let len = chunk_len(total, chunk, k * chunk);
    &&& calls[2 * k] matches HostCall::Available { reading }
    &&& leaves_room(reading, headroom, len)
    &&& calls[2 * k + 1] == HostCall::Activate { offset: k * chunk, len, error: None }
}

/// Whether `calls` begin with those of `n` chunks that were activated.
pub open spec fn activated(
    calls: Seq<HostCall>,
    total: int,
    chunk: int,
    headroom: int,
    n: int,
) -> bool {
    &&& 2 * n <= calls.len()
    &&& forall|k: int| 0 <= k < n ==> #[trigger] chunk_activated(calls, total, chunk, headroom, k)
}

/// How many bytes the first `n` chunks are.
pub open spec fn chunks_size(total: int, chunk: int, n: int) -> int {
    if n * chunk < total {
        n * chunk
    } else {
        total
    }
}

/// What a walk over `total` bytes asks for and where it stops: every chunk in
/// turn is asked for with its headroom and activated, until all are, or room
/// runs out, or one fails.
pub open spec fn walks(
    calls: Seq<HostCall>,
    total: int,
    chunk: int,
    headroom: int,
    achieved: int,
    stop: StopReason,
    n: int,
) -> bool {
    let len = chunk_len(total, chunk, achieved);
    &&& n >= 0
    &&& activated(calls, total, chunk, headroom, n)
    &&& achieved == chunks_size(total, chunk, n)
    &&& n > 0 ==> (n - 1) * chunk < total
    &&& match stop {
        StopReason::Completed => achieved == total && calls.len() == 2 * n,
        StopReason::HeadroomFloor { available } => {
            &&& achieved < total
            &&& calls.len() == 2 * n + 1
            &&& calls[2 * n] == HostCall::Available { reading: Some(available) }
            &&& !leaves_room(Some(available), headroom, len)
        },
        StopReason::ChunkFailed(e) => {
            &&& achieved < total
            &&& calls.len() == 2 * n + 2
            &&& calls[2 * n] matches HostCall::Available { reading }
            &&& leaves_room(reading, headroom, len)
            &&& calls[2 * n + 1] == HostCall::Activate { offset: achieved, len, error: Some(e) }
        },
    }
}

/// Whether `calls` are a walk that activated `achieved` bytes and stopped so.
pub open spec fn walked(
    calls: Seq<HostCall>,
    total: int,
    chunk: int,
    headroom: int,
    achieved: int,
    stop: StopReason,
) -> bool {
    exists|n: int| #[trigger] walks(calls, total, chunk, headroom, achieved, stop, n)
}

/// What was activated stays so as more is asked for.
proof fn lemma_activated_prefix(
    calls: Seq<HostCall>,
    more: Seq<HostCall>,
    total: int,
    chunk: int,
    headroom: int,
    n: int,
)
    requires
        activated(calls, total, chunk, headroom, n),
        calls.len() <= more.len(),
        forall|j: int| 0 <= j < calls.len() ==> more[j] == #[trigger] calls[j],
    ensures
        activated(more, total, chunk, headroom, n),
{
    assert forall|k: int| 0 <= k < n implies #[trigger] chunk_activated(
        more,
        total,
        chunk,
        headroom,
        k,
    ) by {
        assert(chunk_activated(calls, total, chunk, headroom, k));
        assert(more[2 * k] == calls[2 * k]);
        assert(more[2 * k + 1] == calls[2 * k + 1]);
    }
}

/// Walk `total` bytes in steps of `chunk`. Before each step the host is asked
/// how much memory is available, and the walk stops if less than `headroom`
/// would be left; without a reading there is no limit. The walk also stops at a
/// chunk that fails, and keeps those before it.
pub fn walk_chunks<H: ChunkHost>(total: usize, chunk: usize, headroom: u64, host: &mut H) -> (r: (
    usize,
    StopReason,
))
    requires
        chunk > 0,
    ensures
        crate::memory::extends(old(host).calls(), final(host).calls()),
        walked(
            crate::memory::since(old(host).calls(), final(host).calls()),
            total as int,
            chunk as int,
            headroom as int,
            r.0 as int,
            r.1,
        ),
{
    let ghost before = host.calls();
    let ghost mut n: int = 0;
    let mut achieved: usize = 0;
    assert(0 * chunk == 0) by (nonlinear_arith);
    assert(before.take(before.len() as int) =~= before);
    while achieved < total
        invariant
            before == old(host).calls(),
            chunk > 0,
            n >= 0,
            achieved <= total,
            crate::memory::extends(before, host.calls()),
            crate::memory::since(before, host.calls()).len() == 2 * n,
            activated(
                crate::memory::since(before, host.calls()),
                total as int,
                chunk as int,
                headroom as int,
                n,
            ),
            achieved < total ==> achieved == n * chunk,
            achieved == chunks_size(total as int, chunk as int, n),
            n > 0 ==> (n - 1) * chunk < total,
        decreases total - achieved,
    {
        let ghost calls0 = crate::memory::since(before, host.calls());
        let len: usize = if chunk < total - achieved {
            chunk
        } else {
            total - achieved
        };
        let ghost made0 = host.calls();
        let reading = host.available();
        proof {
            crate::memory::lemma_extends_push(before, made0, HostCall::Available { reading });
        }
        let ghost calls1 = crate::memory::since(before, host.calls());
        if let Some(available) = reading {
            if available < headroom.saturating_add(len as u64) {
                proof {
                    lemma_activated_prefix(
                        calls0,
                        calls1,
                        total as int,
                        chunk as int,
                        headroom as int,
                        n,
                    );
                    assert(walks(
                        calls1,
                        total as int,
                        chunk as int,
                        headroom as int,
                        achieved as int,
                        StopReason::HeadroomFloor { available },
                        n,
                    ));
                }
                return (achieved, StopReason::HeadroomFloor { available });
            }
        }
        let ghost made1 = host.calls();
        let result = host.activate(achieved, len);
        let ghost calls2 = crate::memory::since(before, host.calls());
        let ghost call = HostCall::Activate {
            offset: achieved as int,
            len: len as int,
            error: error_of(result),
        };
        proof {
            crate::memory::lemma_extends_push(before, made1, call);
        }
        if let Err(e) = result {
            proof {
                lemma_activated_prefix(
                    calls0,
                    calls2,
                    total as int,
                    chunk as int,
                    headroom as int,
                    n,
                );
                assert(walks(
                    calls2,
                    total as int,
                    chunk as int,
                    headroom as int,
                    achieved as int,
                    StopReason::ChunkFailed(e),
                    n,
                ));
            }
            return (achieved, StopReason::ChunkFailed(e));
        }
        proof {
            assert((n + 1) * chunk == n * chunk + chunk) by (nonlinear_arith);
            assert forall|k: int| 0 <= k < n + 1 implies #[trigger] chunk_activated(
                calls2,
                total as int,
                chunk as int,
                headroom as int,
                k,
            ) by {
                if k < n {
                    assert(chunk_activated(
                        calls0,
                        total as int,
                        chunk as int,
                        headroom as int,
                        k,
                    ));
                }
            }
            n = n + 1;
        }
        achieved = achieved + len;
    }
    assert(walks(
        crate::memory::since(before, host.calls()),
        total as int,
        chunk as int,
        headroom as int,
        achieved as int,
        StopReason::Completed,
        n,
    ));
    (achieved, StopReason::Completed)
}

/// What comes of a walk: an outcome to work with, or an error if nothing at all
/// was activated.
pub fn conclude(requested: usize, achieved: usize, stop: StopReason) -> (r: Result<
    AllocOutcome,
    AllocError,
>)
    requires
        achieved == 0 ==> !(stop is Completed),
    ensures
        achieved > 0 ==> r == Ok::<AllocOutcome, AllocError>(
            AllocOutcome { requested, achieved, stop },
        ),
        achieved == 0 ==> r == Err::<AllocOutcome, AllocError>(
            match stop {
                StopReason::ChunkFailed(e) => e,
                StopReason::HeadroomFloor { available } => AllocError::Exhausted { available },
                StopReason::Completed => AllocError::ZeroSize,
            },
        ),
{
    if achieved > 0 {
        return Ok(AllocOutcome { requested, achieved, stop });
    }
    match stop {
        StopReason::ChunkFailed(e) => Err(e),
        StopReason::HeadroomFloor { available } => Err(AllocError::Exhausted { available }),
        StopReason::Completed => Err(AllocError::ZeroSize),
    }
}

/// Activate up to `requested` bytes on the host in steps of [`CHUNK_BYTES`], so
/// that a request that is too large comes out smaller instead of starving the
/// machine. An error if the request is zero or nothing could be activated.
pub fn activate_budgeted<H: ChunkHost>(requested: usize, headroom: u64, host: &mut H) -> (r: Result<
    AllocOutcome,
    AllocError,
>)
    ensures
        requested == 0 ==> r == Err::<AllocOutcome, AllocError>(AllocError::ZeroSize)
            && final(host).calls() == old(host).calls(),
        requested > 0 ==> crate::memory::extends(old(host).calls(), final(host).calls())
            && exists|achieved: int, stop: StopReason| #[trigger]
            walked(
                crate::memory::since(old(host).calls(), final(host).calls()),
                requested as int,
                CHUNK_BYTES as int,
                headroom as int,
                achieved,
                stop,
            ) && budgeted(requested, achieved, stop, r),
{
    if requested == 0 {
        return Err(AllocError::ZeroSize);
    }
    let (achieved, stop) = walk_chunks(requested, CHUNK_BYTES, headroom, host);
    conclude(requested, achieved, stop)
}

/// The result that belongs to a walk that activated `achieved` bytes.
pub open spec fn budgeted(
    requested: usize,
    achieved: int,
    stop: StopReason,
    r: Result<AllocOutcome, AllocError>,
) -> bool {
    match r {
        Ok(outcome) => {
            &&& outcome.requested == requested
            &&& outcome.achieved == achieved
            &&& outcome.stop == stop
            &&& achieved > 0
        },
        Err(e) => {
            &&& achieved == 0
            &&& match stop {
                StopReason::ChunkFailed(cause) => e == cause,
                StopReason::HeadroomFloor { available } => e == AllocError::Exhausted { available },
                StopReason::Completed => false,
            }
        },
    }
}

/// A walk never activates more than was asked for, and all of it exactly when it
/// completes.
pub proof fn law_walk_is_bounded(
    calls: Seq<HostCall>,
    total: int,
    chunk: int,
    headroom: int,
    achieved: int,
    stop: StopReason,
)
    requires
        chunk > 0,
        total >= 0,
        walked(calls, total, chunk, headroom, achieved, stop),
    ensures
        0 <= achieved <= total,
        stop is Completed <==> achieved == total,
{
    let n = choose|n: int| #[trigger] walks(calls, total, chunk, headroom, achieved, stop, n);
    assert(n * chunk >= 0) by (nonlinear_arith)
        requires
            n >= 0,
            chunk > 0,
    ;
}

/// A walk without readings and without failures activates all that was asked
/// for.
pub proof fn law_unhindered_walk_completes(
    calls: Seq<HostCall>,
    total: int,
    chunk: int,
    headroom: int,
    achieved: int,
    stop: StopReason,
)
    requires
        chunk > 0,
        total >= 0,
        walked(calls, total, chunk, headroom, achieved, stop),
        forall|k: int|
            0 <= k < calls.len() ==> match #[trigger] calls[k] {
                HostCall::Available { reading } => reading is None,
                HostCall::Activate { error, .. } => error is None,
            },
    ensures
        stop is Completed,
        achieved == total,
{
}

/// The chunks that a walk activated lie side by side: each begins where the one
/// before it ended, the first at zero.
pub proof fn law_chunks_are_contiguous(
    calls: Seq<HostCall>,
    total: int,
    chunk: int,
    headroom: int,
    n: int,
    k: int,
)
    requires
        chunk > 0,
        activated(calls, total, chunk, headroom, n),
        0 <= k < n,
        (n - 1) * chunk < total,
    ensures
        calls[1]->offset == 0,
        k + 1 < n ==> calls[2 * (k + 1) + 1]->offset == calls[2 * k + 1]->offset + calls[2 * k
            + 1]->len,
{
    assert(chunk_activated(calls, total, chunk, headroom, 0));
    assert(0 * chunk == 0) by (nonlinear_arith);
    assert(chunk_activated(calls, total, chunk, headroom, k));
    if k + 1 < n {
        assert((k + 1) * chunk == k * chunk + chunk) by (nonlinear_arith);
        assert((k + 1) * chunk <= (n - 1) * chunk) by (nonlinear_arith)
            requires
                k + 1 <= n - 1,
                chunk > 0,
        ;
        assert(chunk_activated(calls, total, chunk, headroom, k + 1));
    }
}

/// The headroom is kept. Whatever a walk tried to activate, it read right before how much
/// was available, and after taking the chunk out of that the headroom would still be
/// left; where nothing can be read there is no limit, and none if the reading is the
/// largest number there is. If the walk stopped at the floor, less than the headroom would
/// have been left of the last reading after the next chunk, and it activated nothing
/// after it.
pub proof fn law_headroom_is_kept(
    calls: Seq<HostCall>,
    total: int,
    chunk: int,
    headroom: int,
    achieved: int,
    stop: StopReason,
)
    requires
        chunk > 0,
        total >= 0,
        walked(calls, total, chunk, headroom, achieved, stop),
    ensures
        forall|k: int|
            0 <= k < calls.len() ==> match #[trigger] calls[k] {
                HostCall::Activate { len, .. } => 0 < k && match calls[k - 1] {
                    HostCall::Available { reading: Some(available) } => available - len
                        >= headroom || available == u64::MAX,
                    HostCall::Available { reading: None } => true,
                    _ => false,
                },
                _ => true,
            },
        stop matches StopReason::HeadroomFloor { available } ==> {
            &&& calls.len() > 0
            &&& calls.last() == (HostCall::Available { reading: Some(available) })
            &&& available - chunk < headroom
            &&& available - (total - achieved) < headroom
            &&& achieved < total
        },
{
    let n = choose|n: int| #[trigger] walks(calls, total, chunk, headroom, achieved, stop, n);
    assert forall|m: int| 0 <= m < calls.len() implies match #[trigger] calls[m] {
        HostCall::Activate { len, .. } => 0 < m && match calls[m - 1] {
            HostCall::Available { reading: Some(available) } => available - len >= headroom
                || available == u64::MAX,
            HostCall::Available { reading: None } => true,
            _ => false,
        },
        _ => true,
    } by {
        let k = m / 2;
        if k < n {
            assert(chunk_activated(calls, total, chunk, headroom, k));
        }
    }
}

/// How many bytes were activated by the calls.
pub open spec fn bytes_activated(calls: Seq<HostCall>) -> int
    decreases calls.len(),
{
    if calls.len() == 0 {
        0
    } else {
        bytes_activated(calls.drop_last()) + match calls.last() {
            HostCall::Activate { len, error: None, .. } => len,
            _ => 0,
        }
    }
}

/// A walk says that it activated what it activated: the chunks that were activated without
/// an error add up to the bytes achieved. Each chunk begins where the ones before it end,
/// and is of the size asked for unless fewer bytes are left of the request.
pub proof fn law_achieved_is_what_was_activated(
    calls: Seq<HostCall>,
    total: int,
    chunk: int,
    headroom: int,
    achieved: int,
    stop: StopReason,
)
    requires
        chunk > 0,
        total >= 0,
        walked(calls, total, chunk, headroom, achieved, stop),
    ensures
        bytes_activated(calls) == achieved,
        forall|k: int|
            0 <= k < calls.len() ==> match #[trigger] calls[k] {
                HostCall::Activate { offset, len, error } => {
                    &&& offset == bytes_activated(calls.take(k))
                    &&& 0 < len <= chunk
                    &&& offset + len <= total
                    &&& len < chunk ==> offset + len == total
                    &&& error is Some ==> k == calls.len() - 1 && stop == StopReason::ChunkFailed(
                        error->Some_0,
                    )
                },
                _ => true,
            },
{
    let n = choose|n: int| #[trigger] walks(calls, total, chunk, headroom, achieved, stop, n);
    lemma_bytes_activated(calls, total, chunk, headroom, n, n);
    assert(n * chunk >= 0) by (nonlinear_arith)
        requires
            n >= 0,
            chunk > 0,
    ;
    match stop {
        StopReason::Completed => {
            assert(calls.take(2 * n) =~= calls);
        },
        StopReason::HeadroomFloor { .. } => {
            assert(calls.drop_last() =~= calls.take(2 * n));
        },
        StopReason::ChunkFailed(_) => {
            let once = calls.drop_last();
            assert(once.drop_last() =~= calls.take(2 * n));
            assert(once.last() == calls[2 * n]);
            assert(calls.take(2 * n + 1) =~= once);
        },
    }
    assert forall|m: int| 0 <= m < calls.len() implies match #[trigger] calls[m] {
        HostCall::Activate { offset, len, error } => {
            &&& offset == bytes_activated(calls.take(m))
            &&& 0 < len <= chunk
            &&& offset + len <= total
            &&& len < chunk ==> offset + len == total
            &&& error is Some ==> m == calls.len() - 1 && stop == StopReason::ChunkFailed(
                error->Some_0,
            )
        },
        _ => true,
    } by {
        let k = m / 2;
        if k < n {
            assert(chunk_activated(calls, total, chunk, headroom, k));
            lemma_bytes_activated(calls, total, chunk, headroom, n, k);
            assert(k * chunk <= (n - 1) * chunk && 0 <= k * chunk) by (nonlinear_arith)
                requires
                    0 <= k <= n - 1,
                    chunk > 0,
            ;
            if m == 2 * k + 1 {
                let before = calls.take(m);
                assert(before.drop_last() =~= calls.take(2 * k));
                assert(before.last() == calls[2 * k]);
            }
        }
    }
}

/// What the first `k` chunks of those activated add up to.
proof fn lemma_bytes_activated(
    calls: Seq<HostCall>,
    total: int,
    chunk: int,
    headroom: int,
    n: int,
    k: int,
)
    requires
        chunk > 0,
        total >= 0,
        activated(calls, total, chunk, headroom, n),
        n > 0 ==> (n - 1) * chunk < total,
        0 <= k <= n,
    ensures
        bytes_activated(calls.take(2 * k)) == chunks_size(total, chunk, k),
    decreases k,
{
    if k == 0 {
        assert(0 * chunk == 0) by (nonlinear_arith);
    } else {
        lemma_bytes_activated(calls, total, chunk, headroom, n, k - 1);
        assert(chunk_activated(calls, total, chunk, headroom, k - 1));
        let all = calls.take(2 * k);
        let once = all.drop_last();
        assert(once.drop_last() =~= calls.take(2 * (k - 1)));
        assert(once.last() == calls[2 * (k - 1)]);
        assert(all.last() == calls[2 * (k - 1) + 1]);
        assert(bytes_activated(once) == bytes_activated(once.drop_last()));
        assert(k * chunk == (k - 1) * chunk + chunk) by (nonlinear_arith);
        assert((k - 1) * chunk <= (n - 1) * chunk) by (nonlinear_arith)
            requires
                k - 1 <= n - 1,
                chunk > 0,
        ;
    }
}

/// Where a mapping of a physical range starts, as the offset that the operating
/// system takes: an error unless the range is whole pages within that offset's
/// reach.
pub fn devmem_offset(phys_start: u64, len: usize) -> (r: Result<i64, AllocError>)
    ensures
        r == if len == 0 {
            Err::<i64, AllocError>(AllocError::ZeroSize)
        } else if phys_start % MAP_ALIGN != 0 || len as u64 % MAP_ALIGN != 0 || phys_start
            > i64::MAX {
            Err(AllocError::DevMemAlignment { phys_start, len })
        } else {
            Ok(phys_start as i64)
        },
{
    if len == 0 {
        return Err(AllocError::ZeroSize);
    }
    if phys_start % MAP_ALIGN != 0 || len as u64 % MAP_ALIGN != 0 || phys_start > i64::MAX as u64 {
        return Err(AllocError::DevMemAlignment { phys_start, len });
    }
    Ok(phys_start as i64)
}

/// What is owed to the setting that lets the kernel move locked pages: what it
/// was, and whether it is changed for the test.
pub struct CompactionGuard {
    pub original: String,
    pub changed: bool,
}

impl CompactionGuard {
    /// The guard for a setting that reads `contents`. Nothing needs to change if
    /// it is off already.
    pub fn from_setting(contents: &str) -> (guard: Self)
        ensures
            guard.original@ == text::trimmed(contents@),
            guard.changed == (text::trimmed(contents@) != "0"@),
    {
        let setting = trim(&chars_of(contents));
        let changed = !same_chars(&setting, &chars_of("0"));
        CompactionGuard { original: string_of(&setting), changed }
    }

    /// What to write for the duration of the test, if anything.
    pub fn disabling_text(&self) -> (t: Option<String>)
        ensures
            t is Some <==> self.changed,
            t matches Some(s) ==> s@ == "0\n"@,
    {
        if self.changed {
            let mut s = String::new();
            s.append("0\n");
            assert(s@ =~= "0\n"@);
            Some(s)
        } else {
            None
        }
    }

    /// What to write afterwards, if anything.
    pub fn restoring_text(&self) -> (t: Option<String>)
        ensures
            t is Some <==> self.changed,
            t matches Some(s) ==> s@ == self.original@ + "\n"@,
    {
        if self.changed {
            let mut s = String::new();
            s.append(&self.original);
            s.append("\n");
            assert(s@ =~= self.original@ + "\n"@);
            Some(s)
        } else {
            None
        }
    }
}

/// A walk that activated something succeeds, however it ended, and tells how much of what
/// was asked for; one that activated nothing fails with what it ran into.
pub proof fn law_anything_activated_counts(
    requested: usize,
    achieved: int,
    stop: StopReason,
    r: Result<AllocOutcome, AllocError>,
)
    requires
        budgeted(requested, achieved, stop, r),
    ensures
        r is Ok <==> achieved != 0,
        r matches Ok(outcome) ==> outcome.achieved == achieved && outcome.requested == requested
            && outcome.stop == stop,
        r matches Err(AllocError::Exhausted { available }) ==> stop == (StopReason::HeadroomFloor {
            available,
        }) || stop == StopReason::ChunkFailed(AllocError::Exhausted { available }),
{
}

/// Memory is activated in pieces of 512 MiB, one behind the other from the first byte on;
/// only the last may be smaller.
pub proof fn law_memory_is_taken_in_pieces(
    calls: Seq<HostCall>,
    total: int,
    headroom: int,
    achieved: int,
    stop: StopReason,
    i: int,
)
    requires
        0 <= total,
        walked(calls, total, CHUNK_BYTES as int, headroom, achieved, stop),
        0 <= i < calls.len(),
        calls[i] is Activate,
    ensures
        calls[i] matches HostCall::Activate { offset, len, .. } && offset % 536_870_912 == 0
            && len <= 536_870_912 && (len < 536_870_912 ==> offset + len == total),
{
    let chunk = CHUNK_BYTES as int;
    let n = choose|n: int| #[trigger] walks(calls, total, chunk, headroom, achieved, stop, n);
    let k = i / 2;
    if k < n {
        assert(chunk_activated(calls, total, chunk, headroom, k));
        assert(i == 2 * k || i == 2 * k + 1);
    } else {
        assert(k == n);
    }
}

/// What an error says tells what it is about: how much memory was available, which range
/// was not aligned, or what went wrong underneath.
pub proof fn law_error_tells_its_cause(error: AllocError)
    ensures
        error matches AllocError::Exhausted { available } ==> text::holds_text(
            error.shown(),
            text::decimal(available as int) + " bytes available)"@,
        ),
        error matches AllocError::DevMemAlignment { phys_start, len } ==> text::holds_text(
            error.shown(),
            text::hex(phys_start as int) + ", len 0x"@ + text::hex(len as int),
        ),
        error matches AllocError::Mmap { source } ==> text::holds_text(error.shown(), source@),
        error matches AllocError::Mlock { source } ==> text::holds_text(error.shown(), source@),
        error matches AllocError::Mprotect { source } ==> text::holds_text(error.shown(), source@),
        error matches AllocError::DevMemOpen { source } ==> text::holds_text(
            error.shown(),
            source@,
        ),
        error matches AllocError::DevMemMap { source } ==> text::holds_text(error.shown(), source@),
{
    let none = Seq::<char>::empty();
    match error {
        AllocError::ZeroSize => {},
        AllocError::Mmap { source } => {
            text::lemma_text_grows("mmap failed: "@, source@);
        },
        AllocError::Mlock { source } => {
            text::lemma_text_grows(
                "mlock failed (are you root or do you have CAP_IPC_LOCK?): "@,
                source@,
            );
        },
        AllocError::Mprotect { source } => {
            text::lemma_text_grows("mprotect failed while activating chunk: "@, source@);
        },
        AllocError::Exhausted { available } => {
            text::lemma_holds_pieces(
                "could not lock any memory below the headroom floor ("@,
                text::decimal(available as int),
                " bytes available)"@,
                none,
            );
        },
        AllocError::DevMemAlignment { phys_start, len } => {
            let head = "/dev/mem physical range must be page-aligned (start 0x"@;
            let start = text::hex(phys_start as int);
            let size = text::hex(len as int);
            text::lemma_holds_pieces(head, start, ", len 0x"@, size);
            text::lemma_text_grows(head + start + ", len 0x"@ + size, ")"@);
        },
        AllocError::DevMemOpen { source } => {
            text::lemma_text_grows("could not open /dev/mem: "@, source@);
        },
        AllocError::DevMemMap { source } => {
            text::lemma_text_grows("could not map physical range through /dev/mem: "@, source@);
        },
    }
}

} // verus!
