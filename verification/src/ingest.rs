//! How an interval that the kernel reports is described and queued.

use vstd::prelude::*;

use crate::arrival;
use crate::clock;
use crate::common::{BlockEvent, STACK_STORAGE_SIZE, TASK_COMM_LEN};
use crate::events::BpfEvent;
use crate::namespace;
use crate::stream::EventStream;
use crate::symbols;
use crate::symbols::SymbolTable;
use crate::text;

verus! {

/// After this many intervals it is due to look how full the storage of stacks is.
pub const STACK_STORAGE_SIZE_CHECK_COUNT: usize = 100;

/// What was found out about an interval besides what the kernel reports.
pub struct Observed {
    /// The addresses on the kernel stack, or why they cannot be had. It does not
    /// matter where the kernel could not collect the stack.
    pub kernel_stack: Result<Vec<u64>, String>,
    /// The addresses on the user stack, or why they cannot be had. It does not
    /// matter where the kernel could not collect the stack.
    pub user_stack: Result<Vec<u64>, String>,
    /// The symbols on the user stack, or why there are none; nothing if nobody
    /// was asked for them.
    pub user_symbols: Option<Result<Vec<(u64, Option<String>)>, String>>,
    /// The status of the thread, or why it could not be read.
    pub thread_status: Result<String, String>,
}

/// A frame as addresses and text.
pub open spec fn frame_view(frame: (u64, String)) -> (u64, Seq<char>) {
    (frame.0, frame.1@)
}

/// The frames of a native stack as addresses and text.
pub open spec fn frame_views(frames: Seq<(u64, String)>) -> Seq<(u64, Seq<char>)> {
    frames.map_values(|frame: (u64, String)| frame_view(frame))
}

/// What a symbol is called.
pub open spec fn known_or_not(name: Option<Seq<char>>) -> Seq<char> {
    match name {
        Some(name) => name,
        None => "[unknown symbol name]"@,
    }
}

/// A frame of the kernel stack.
pub open spec fn kernel_frame(ksyms: Map<u64, Seq<char>>, ip: u64) -> (u64, Seq<char>) {
    (ip, known_or_not(symbols::symbol_at(ksyms, ip)))
}

/// A frame of the user stack.
pub open spec fn user_frame(frame: (u64, Option<String>)) -> (u64, Seq<char>) {
    (
        frame.0,
        known_or_not(
            match frame.1 {
                Some(name) => Some(name@),
                None => None,
            },
        ),
    )
}

/// The kernel's part of the stack of an interval.
pub open spec fn kernel_frames(
    ksyms: Map<u64, Seq<char>>,
    kernel_stack_id: i64,
    kernel_stack: Result<Vec<u64>, String>,
) -> Seq<(u64, Seq<char>)> {
    if kernel_stack_id < 0 {
        seq![
            (
                0u64,
                "[kernel stack capture failed: "@ + text::signed_decimal(kernel_stack_id as int)
                    + "]"@,
            ),
        ]
    } else {
        match kernel_stack {
            Ok(ips) => ips@.map_values(|ip: u64| kernel_frame(ksyms, ip)),
            Err(error) => seq![(0u64, "[kernel stack unavailable: "@ + error@ + "]"@)],
        }
    }
}

/// The symbols of the user stack are to be used.
pub open spec fn is_symbolized(
    unavailable: bool,
    user_symbols: Option<Result<Vec<(u64, Option<String>)>, String>>,
) -> bool {
    !unavailable && user_symbols is Some && user_symbols->0 is Ok
}

/// The user's part of the stack of an interval.
pub open spec fn user_frames(
    unavailable: bool,
    user_stack_id: i64,
    observed: Observed,
) -> Seq<(u64, Seq<char>)> {
    if user_stack_id < 0 {
        seq![
            (
                0u64,
                "[user stack capture failed: "@ + text::signed_decimal(user_stack_id as int) + "]"@,
            ),
        ]
    } else {
        match observed.user_stack {
            Ok(ips) => if is_symbolized(unavailable, observed.user_symbols) {
                observed.user_symbols->0->Ok_0@.map_values(
                    |frame: (u64, Option<String>)| user_frame(frame),
                )
            } else {
                ips@.map_values(|ip: u64| (ip, "[unknown symbol name]"@))
            },
            Err(error) => seq![(0u64, "[user stack unavailable: "@ + error@ + "]"@)],
        }
    }
}

/// The native stacks of a process turn out not to be symbolizable.
pub open spec fn fails_to_symbolize(
    unavailable: bool,
    user_stack_id: i64,
    observed: Observed,
) -> bool {
    &&& user_stack_id >= 0
    &&& observed.user_stack is Ok
    &&& !unavailable
    &&& observed.user_symbols is Some
    &&& observed.user_symbols->0 is Err
}

/// How many bytes of a name stand before the zero byte that ends it; all of
/// them if none does.
pub open spec fn name_len(name: Seq<u8>) -> nat
    decreases name.len(),
{
    if name.len() == 0 || name[0] == 0 {
        0
    } else {
        1 + name_len(name.skip(1))
    }
}

/// When an event took place, in milliseconds since the Unix epoch, given its
/// time on the monotonic clock and what both clocks show now. There is no such
/// time if the event lies in the future, or before the epoch.
pub open spec fn timestamp_at(bpf_ktime: u64, now_ktime: u64, now_ms: u64) -> Option<u64> {
    if bpf_ktime <= now_ktime && now_ktime - bpf_ktime <= now_ms * 1_000_000 {
        Some(((now_ms * 1_000_000 - (now_ktime - bpf_ktime)) / 1_000_000) as u64)
    } else {
        None
    }
}

/// The thread ID of an interval in the target JVM, if it is known.
pub open spec fn thread_id(observed: Observed) -> Option<u32> {
    match observed.thread_status {
        Ok(status) => namespace::innermost_pid(status@),
        Err(_) => None,
    }
}

/// An event describes an interval that the kernel has reported.
pub open spec fn describes(
    described: BpfEvent,
    event: BlockEvent,
    observed: Observed,
    ksyms: Map<u64, Seq<char>>,
    unavailable: bool,
    timestamp: u64,
) -> bool {
    &&& described.timestamp == timestamp
    &&& described.pid == event.tgid
    &&& described.host_tid == event.pid
    &&& described.tid == thread_id(observed)
    &&& described.comm@ == text::lossy_text(event.name@.take(name_len(event.name@) as int))
    &&& described.duration_us == event.offtime
    &&& described.start_monotonic_ns == event.t_start
    &&& described.end_monotonic_ns == event.t_end
    &&& described.signal_result == event.signal_result
    &&& frame_views(described.stacktrace@) == kernel_frames(
        ksyms,
        event.kernel_stack_id,
        observed.kernel_stack,
    ) + user_frames(unavailable, event.user_stack_id, observed)
}

/// An event cannot be described because its thread has a name without an end,
/// or because it has no time.
pub open spec fn refusal(event: BlockEvent, timestamp: Option<u64>) -> Option<Seq<char>> {
    if name_len(event.name@) >= TASK_COMM_LEN {
        Some("data provided does not contain a nul"@)
    } else if timestamp is None {
        Some("event time is out of range of the clocks"@)
    } else {
        None
    }
}

/// A label in brackets.
fn label(before: &str, detail: &str) -> (text: String)
    ensures
        text@ == before@ + detail@ + "]"@,
{
    let mut label = text::copied(before);
    text::append(&mut label, detail);
    text::append(&mut label, "]");
    label
}

/// A label in brackets that gives a number.
fn numbered_label(before: &str, number: i64) -> (text: String)
    ensures
        text@ == before@ + text::signed_decimal(number as int) + "]"@,
{
    let mut label = text::copied(before);
    text::append_signed_decimal(&mut label, number);
    text::append(&mut label, "]");
    label
}

/// What a symbol is called.
fn name_or_unknown(name: Option<&String>) -> (text: String)
    ensures
        text@ == known_or_not(
            match name {
                Some(name) => Some(name@),
                None => None,
            },
        ),
{
    match name {
        Some(name) => name.clone(),
        None => text::copied("[unknown symbol name]"),
    }
}

/// Collects the kernel's part of a stack.
fn collect_kernel_frames(
    ksyms: &SymbolTable,
    kernel_stack_id: i64,
    kernel_stack: &Result<Vec<u64>, String>,
) -> (frames: Vec<(u64, String)>)
    ensures
        frame_views(frames@) == kernel_frames(ksyms@, kernel_stack_id, *kernel_stack),
{
    let mut frames: Vec<(u64, String)> = Vec::new();
    if kernel_stack_id < 0 {
        frames.push((0, numbered_label("[kernel stack capture failed: ", kernel_stack_id)));
        assert(frame_views(frames@) =~= kernel_frames(ksyms@, kernel_stack_id, *kernel_stack));
        return frames;
    }
    match kernel_stack {
        Ok(ips) => {
            let mut i: usize = 0;
            while i < ips.len()
                invariant
                    0 <= i <= ips@.len(),
                    frames@.len() == i,
                    forall|k: int|
                        0 <= k < i ==> frame_view(#[trigger] frames@[k]) == kernel_frame(
                            ksyms@,
                            ips@[k],
                        ),
                decreases ips@.len() - i,
            {
                frames.push((ips[i], name_or_unknown(ksyms.resolve(ips[i]))));
                i = i + 1;
            }
        },
        Err(error) => {
            frames.push((0, label("[kernel stack unavailable: ", error.as_str())));
        },
    }
    assert(frame_views(frames@) =~= kernel_frames(ksyms@, kernel_stack_id, *kernel_stack));
    frames
}

/// Collects the user's part of a stack.
fn collect_user_frames(unavailable: bool, user_stack_id: i64, observed: &Observed) -> (frames: Vec<
    (u64, String),
>)
    ensures
        frame_views(frames@) == user_frames(unavailable, user_stack_id, *observed),
{
    let mut frames: Vec<(u64, String)> = Vec::new();
    if user_stack_id < 0 {
        frames.push((0, numbered_label("[user stack capture failed: ", user_stack_id)));
        assert(frame_views(frames@) =~= user_frames(unavailable, user_stack_id, *observed));
        return frames;
    }
    match &observed.user_stack {
        Ok(ips) => {
            if !unavailable {
                if let Some(Ok(found)) = &observed.user_symbols {
                    let mut i: usize = 0;
                    while i < found.len()
                        invariant
                            0 <= i <= found@.len(),
                            frames@.len() == i,
                            forall|k: int|
                                0 <= k < i ==> frame_view(#[trigger] frames@[k]) == user_frame(
                                    found@[k],
                                ),
                        decreases found@.len() - i,
                    {
                        let name = match &found[i].1 {
                            Some(name) => Some(name),
                            None => None,
                        };
                        frames.push((found[i].0, name_or_unknown(name)));
                        i = i + 1;
                    }
                    assert(frame_views(frames@) =~= user_frames(
                        unavailable,
                        user_stack_id,
                        *observed,
                    ));
                    return frames;
                }
            }
            let mut i: usize = 0;
            while i < ips.len()
                invariant
                    0 <= i <= ips@.len(),
                    frames@.len() == i,
                    forall|k: int|
                        0 <= k < i ==> frame_view(#[trigger] frames@[k]) == (
                            ips@[k],
                            "[unknown symbol name]"@,
                        ),
                decreases ips@.len() - i,
            {
                frames.push((ips[i], name_or_unknown(None)));
                i = i + 1;
            }
        },
        Err(error) => {
            frames.push((0, label("[user stack unavailable: ", error.as_str())));
        },
    }
    assert(frame_views(frames@) =~= user_frames(unavailable, user_stack_id, *observed));
    frames
}

/// The name of a thread, if a zero byte ends it.
fn thread_name(name: &[u8; TASK_COMM_LEN]) -> (text: Option<String>)
    ensures
        match text {
            Some(text) => name_len(name@) < TASK_COMM_LEN && text@ == text::lossy_text(
                name@.take(name_len(name@) as int),
            ),
            None => name_len(name@) == TASK_COMM_LEN,
        },
{
    let mut bytes: Vec<u8> = Vec::new();
    let mut i: usize = 0;
    assert(name@.skip(0) =~= name@);
    while i < TASK_COMM_LEN
        invariant
            0 <= i <= TASK_COMM_LEN,
            name@.len() == TASK_COMM_LEN,
            bytes@ == name@.take(i as int),
            name_len(name@) == i + name_len(name@.skip(i as int)),
        decreases TASK_COMM_LEN - i,
    {
        if name[i] == 0 {
            return Some(text::from_utf8_lossy(bytes.as_slice()));
        }
        assert(name@.skip(i as int).skip(1) =~= name@.skip(i + 1));
        bytes.push(name[i]);
        assert(bytes@ =~= name@.take(i + 1));
        i = i + 1;
    }
    None
}

impl EventStream {
    /// When an event took place, in milliseconds since the Unix epoch, given
    /// what the clocks show.
    pub fn compute_timestamp_at(bpf_ktime: u64, now_ktime: u64, now_ms: u64) -> (timestamp: Option<
        u64,
    >)
        ensures
            timestamp == timestamp_at(bpf_ktime, now_ktime, now_ms),
    {
        if bpf_ktime > now_ktime {
            return None;
        }
        let offset: u128 = (now_ktime - bpf_ktime) as u128;
        let now: u128 = now_ms as u128 * 1_000_000;
        if offset > now {
            return None;
        }
        Some(((now - offset) / 1_000_000) as u64)
    }

    /// When an event took place, in milliseconds since the Unix epoch.
    pub fn compute_timestamp(bpf_ktime: u64) -> (timestamp: Option<u64>)
        ensures
            exists|now_ktime: u64, now_ms: u64|
                {
                    &&& clock::is_monotonic_reading(now_ktime)
                    &&& clock::is_wall_reading(now_ms)
                    &&& timestamp == #[trigger] timestamp_at(bpf_ktime, now_ktime, now_ms)
                },
    {
        let now_ktime = clock::monotonic_time_ns();
        let now_ms = clock::time_now();
        Self::compute_timestamp_at(bpf_ktime, now_ktime, now_ms)
    }

    /// Whether it is worth asking for the symbols on the user stack of an
    /// interval.
    pub fn wants_user_symbols(&self, event: &BlockEvent) -> (wants: bool)
        ensures
            wants == (event.user_stack_id >= 0 && !self.native_symbolization_unavailable@.contains(
                event.tgid,
            )),
    {
        broadcast use vstd::std_specs::hash::group_hash_axioms;

        event.user_stack_id >= 0 && !self.native_symbolization_unavailable.contains(&event.tgid)
    }

    /// What it means to add an interval at a time.
    pub open spec fn adds(
        before: EventStream,
        after: EventStream,
        event: BlockEvent,
        observed: Observed,
        timestamp: Option<u64>,
        result: Result<bool, String>,
    ) -> bool {
        let unavailable = before.native_symbolization_unavailable@.contains(event.tgid);
        &&& after.ksyms == before.ksyms
        &&& after.native_symbolization_unavailable@ == (if fails_to_symbolize(
            unavailable,
            event.user_stack_id,
            observed,
        ) {
            before.native_symbolization_unavailable@.insert(event.tgid)
        } else {
            before.native_symbolization_unavailable@
        })
        &&& match result {
            Ok(check_is_due) => {
                &&& refusal(event, timestamp) is None
                &&& after.event_count == (if before.event_count < usize::MAX {
                    before.event_count + 1
                } else {
                    0
                })
                &&& check_is_due == (after.event_count % STACK_STORAGE_SIZE_CHECK_COUNT == 0)
                &&& exists|described: BpfEvent|
                    {
                        &&& #[trigger] describes(
                            described,
                            event,
                            observed,
                            before.ksyms@,
                            unavailable,
                            timestamp->0,
                        )
                        &&& after@ == match thread_id(observed) {
                            Some(tid) => before@.with_interval(tid, described),
                            None => before@.with_unmatched(described),
                        }
                    }
            },
            Err(error) => {
                &&& refusal(event, timestamp) == Some(error@)
                &&& after.event_count == before.event_count
                &&& after@ == before@
            },
        }
    }

    /// Adds an interval that took place at a given time, if its time is known.
    pub fn add_bpf_event_at(
        &mut self,
        event: BlockEvent,
        observed: Observed,
        timestamp: Option<u64>,
    ) -> (result: Result<bool, String>)
        ensures
            Self::adds(*old(self), *final(self), event, observed, timestamp, result),
    {
        broadcast use vstd::std_specs::hash::group_hash_axioms;

        let unavailable = self.native_symbolization_unavailable.contains(&event.tgid);
        let mut frames = collect_kernel_frames(
            &self.ksyms,
            event.kernel_stack_id,
            &observed.kernel_stack,
        );
        let ghost of_kernel = frames@;
        let mut of_user = collect_user_frames(unavailable, event.user_stack_id, &observed);
        let ghost user = of_user@;
        frames.append(&mut of_user);
        assert(frame_views(frames@) =~= frame_views(of_kernel) + frame_views(user));
        if event.user_stack_id >= 0 && !unavailable && observed.user_stack.is_ok() {
            if let Some(Err(_)) = &observed.user_symbols {
                self.native_symbolization_unavailable.insert(event.tgid);
            }
        }
        assert(self@ == old(self)@);
        let comm = match thread_name(&event.name) {
            Some(name) => name,
            None => {
                return Err(text::copied("data provided does not contain a nul"));
            },
        };
        let timestamp = match timestamp {
            Some(timestamp) => timestamp,
            None => {
                return Err(text::copied("event time is out of range of the clocks"));
            },
        };
        let tid = match namespace::namespace_tid(&observed.thread_status) {
            Ok(tid) => Some(tid),
            Err(_) => None,
        };
        let described = BpfEvent {
            timestamp,
            pid: event.tgid,
            host_tid: event.pid,
            tid,
            comm,
            duration_us: event.offtime,
            start_monotonic_ns: event.t_start,
            end_monotonic_ns: event.t_end,
            signal_result: event.signal_result,
            stacktrace: frames,
        };
        assert(describes(described, event, observed, self.ksyms@, unavailable, timestamp));
        match tid {
            Some(tid) => {
                self.enqueue_bpf_event(tid, described);
            },
            None => {
                self.unmatched_bpf_events.push_back(described);
            },
        }
        self.event_count = if self.event_count < usize::MAX {
            self.event_count + 1
        } else {
            0
        };
        Ok(self.event_count % STACK_STORAGE_SIZE_CHECK_COUNT == 0)
    }

    /// Adds an interval that the kernel has reported, given what the clocks show:
    /// it took place when it ended.
    pub fn add_bpf_event_by_clocks(
        &mut self,
        event: BlockEvent,
        observed: Observed,
        now_ktime: u64,
        now_ms: u64,
    ) -> (result: Result<bool, String>)
        ensures
            Self::adds(
                *old(self),
                *final(self),
                event,
                observed,
                timestamp_at(event.t_end, now_ktime, now_ms),
                result,
            ),
    {
        let timestamp = Self::compute_timestamp_at(event.t_end, now_ktime, now_ms);
        self.add_bpf_event_at(event, observed, timestamp)
    }

    /// Adds an interval that the kernel has reported, and says whether it is due
    /// to look how full the storage of stacks is.
    pub fn add_bpf_event(&mut self, event: BlockEvent, observed: Observed) -> (result: Result<
        bool,
        String,
    >)
        ensures
            exists|now_ktime: u64, now_ms: u64|
                {
                    &&& clock::is_monotonic_reading(now_ktime)
                    &&& clock::is_wall_reading(now_ms)
                    &&& Self::adds(
                        *old(self),
                        *final(self),
                        event,
                        observed,
                        #[trigger] timestamp_at(event.t_end, now_ktime, now_ms),
                        result,
                    )
                },
    {
        let now_ktime = clock::monotonic_time_ns();
        let now_ms = clock::time_now();
        self.add_bpf_event_by_clocks(event, observed, now_ktime, now_ms)
    }
}

/// A warning if the storage of stacks is full.
pub fn storage_warning(cur_size: usize) -> (warning: Option<String>)
    ensures
        match warning {
            Some(warning) => cur_size >= STACK_STORAGE_SIZE && warning@
                == "Stacktraces storage is full, some stacks may be missing in output: "@
                + text::decimal(cur_size as nat) + "/"@ + text::decimal(STACK_STORAGE_SIZE as nat),
            None => cur_size < STACK_STORAGE_SIZE,
        },
        warning is Some <==> cur_size >= 10_240,
{
    if cur_size < STACK_STORAGE_SIZE {
        return None;
    }
    let mut warning = text::copied(
        "Stacktraces storage is full, some stacks may be missing in output: ",
    );
    text::append_decimal(&mut warning, cur_size as u64);
    text::append(&mut warning, "/");
    text::append_decimal(&mut warning, STACK_STORAGE_SIZE as u64);
    Some(warning)
}

/// An event took place as long before now on the wall clock as on the monotonic clock,
/// in whole milliseconds since the Unix epoch, rounded down. It has no time if it lies
/// in the future or before the epoch.
pub proof fn law_an_event_is_as_old_by_either_clock(bpf_ktime: u64, now_ktime: u64, now_ms: u64)
    ensures
        match timestamp_at(bpf_ktime, now_ktime, now_ms) {
            Some(timestamp) => {
                let at = now_ms * 1_000_000 - (now_ktime - bpf_ktime);
                &&& bpf_ktime <= now_ktime
                &&& timestamp * 1_000_000 <= at
                &&& at < (timestamp + 1) * 1_000_000
            },
            None => bpf_ktime > now_ktime || now_ktime - bpf_ktime > now_ms * 1_000_000,
        },
{
    if bpf_ktime <= now_ktime && now_ktime - bpf_ktime <= now_ms * 1_000_000 {
        let at = now_ms * 1_000_000 - (now_ktime - bpf_ktime);
        let ms = at / 1_000_000;
        assert(ms * 1_000_000 <= at < (ms + 1) * 1_000_000);
        assert(0 <= ms <= now_ms);
    }
}

/// A name ends before its first zero byte.
pub proof fn law_a_name_ends_before_a_zero_byte(name: Seq<u8>, rest: Seq<u8>)
    requires
        forall|i: int| 0 <= i < name.len() ==> name[i] != 0,
    ensures
        name_len(name) == name.len(),
        name_len(name + seq![0u8] + rest) == name.len(),
    decreases name.len(),
{
    let whole = name + seq![0u8] + rest;
    if name.len() > 0 {
        let fewer = name.skip(1);
        assert forall|i: int| 0 <= i < fewer.len() implies fewer[i] != 0 by {
            assert(fewer[i] == name[i + 1]);
        }
        law_a_name_ends_before_a_zero_byte(fewer, rest);
        assert(whole.skip(1) =~= fewer + seq![0u8] + rest);
        assert(whole[0] == name[0]);
    }
}

/// A name without a zero byte, or where one stands.
proof fn lemma_name_len(name: Seq<u8>)
    ensures
        name_len(name) <= name.len(),
        forall|i: int| 0 <= i < name_len(name) ==> name[i] != 0,
        name_len(name) < name.len() ==> name[name_len(name) as int] == 0,
    decreases name.len(),
{
    if name.len() > 0 && name[0] != 0 {
        lemma_name_len(name.skip(1));
        assert forall|i: int| 0 <= i < name_len(name) implies name[i] != 0 by {
            if i > 0 {
                assert(name[i] == name.skip(1)[i - 1]);
            }
        }
    }
}

/// Every address on the kernel stack has a frame, in the same order, with the symbol
/// that it lies in. A stack that could not be captured or had has one frame, which
/// says why.
pub proof fn law_every_address_on_the_kernel_stack_has_a_frame(
    ksyms: Map<u64, Seq<char>>,
    kernel_stack_id: i64,
    kernel_stack: Result<Vec<u64>, String>,
)
    ensures
        ({
            let frames = kernel_frames(ksyms, kernel_stack_id, kernel_stack);
            &&& kernel_stack_id < 0 ==> frames == seq![
                (
                    0u64,
                    "[kernel stack capture failed: -"@ + text::decimal((-kernel_stack_id) as nat)
                        + "]"@,
                ),
            ]
            &&& kernel_stack_id >= 0 ==> match kernel_stack {
                Ok(ips) => {
                    &&& frames.len() == ips@.len()
                    &&& forall|i: int|
                        0 <= i < ips@.len() ==> (#[trigger] frames[i]).0 == ips@[i] && frames[i].1
                            == match symbols::symbol_at(ksyms, ips@[i]) {
                            Some(name) => name,
                            None => "[unknown symbol name]"@,
                        }
                },
                Err(error) => frames == seq![
                    (0u64, "[kernel stack unavailable: "@ + error@ + "]"@),
                ],
            }
        }),
{
    let frames = kernel_frames(ksyms, kernel_stack_id, kernel_stack);
    if kernel_stack_id < 0 {
        reveal_strlit("[kernel stack capture failed: ");
        reveal_strlit("[kernel stack capture failed: -");
        text::law_a_minus_sign_stands_before_a_negative_number((-kernel_stack_id) as nat);
        assert("[kernel stack capture failed: "@ + seq!['-']
            =~= "[kernel stack capture failed: -"@);
        let digits = text::decimal((-kernel_stack_id) as nat);
        assert("[kernel stack capture failed: "@ + (seq!['-'] + digits) + "]"@
            =~= "[kernel stack capture failed: -"@ + digits + "]"@);
    }
}

/// Every frame of the user stack for which there are symbols is shown, in the same
/// order; without symbols, or for a process whose stacks cannot be symbolized, every
/// address on the stack is shown without a name. A stack that could not be captured or
/// had has one frame, which says why.
pub proof fn law_every_frame_of_the_user_stack_is_shown(
    unavailable: bool,
    user_stack_id: i64,
    observed: Observed,
)
    ensures
        ({
            let frames = user_frames(unavailable, user_stack_id, observed);
            &&& user_stack_id < 0 ==> frames == seq![
                (
                    0u64,
                    "[user stack capture failed: -"@ + text::decimal((-user_stack_id) as nat)
                        + "]"@,
                ),
            ]
            &&& user_stack_id >= 0 ==> match observed.user_stack {
                Ok(ips) => match observed.user_symbols {
                    Some(Ok(found)) if !unavailable => {
                        &&& frames.len() == found@.len()
                        &&& forall|i: int|
                            0 <= i < found@.len() ==> (#[trigger] frames[i]).0 == found@[i].0
                                && frames[i].1 == match found@[i].1 {
                                Some(name) => name@,
                                None => "[unknown symbol name]"@,
                            }
                    },
                    _ => {
                        &&& frames.len() == ips@.len()
                        &&& forall|i: int|
                            0 <= i < ips@.len() ==> #[trigger] frames[i] == (
                                ips@[i],
                                "[unknown symbol name]"@,
                            )
                    },
                },
                Err(error) => frames == seq![(0u64, "[user stack unavailable: "@ + error@ + "]"@)],
            }
        }),
{
    let frames = user_frames(unavailable, user_stack_id, observed);
    if user_stack_id < 0 {
        reveal_strlit("[user stack capture failed: ");
        reveal_strlit("[user stack capture failed: -");
        text::law_a_minus_sign_stands_before_a_negative_number((-user_stack_id) as nat);
        assert("[user stack capture failed: "@ + seq!['-'] =~= "[user stack capture failed: -"@);
        let digits = text::decimal((-user_stack_id) as nat);
        assert("[user stack capture failed: "@ + (seq!['-'] + digits) + "]"@
            =~= "[user stack capture failed: -"@ + digits + "]"@);
    }
}

/// An interval that the kernel has reported is added if and only if its thread has a
/// name with an end and it has a time. It is then described by what the kernel has
/// reported, with the kernel's part of its stack before the user's, and queued once:
/// for the thread that its status names, or apart if it names none. Nothing else that
/// is queued changes. Every hundredth time it is due to look how full the storage of
/// stacks is.
pub proof fn law_a_reported_interval_is_queued_once(
    before: EventStream,
    after: EventStream,
    event: BlockEvent,
    observed: Observed,
    timestamp: Option<u64>,
    result: Result<bool, String>,
)
    requires
        EventStream::adds(before, after, event, observed, timestamp, result),
    ensures
        result is Err <==> timestamp is None || forall|i: int|
            0 <= i < 16 ==> #[trigger] event.name@[i] != 0,
        result is Err ==> after@ == before@ && after.event_count == before.event_count,
        result matches Ok(due) ==> {
            &&& before.event_count < usize::MAX ==> after.event_count == before.event_count + 1
            &&& due == (after.event_count % 100 == 0)
            &&& after@.jvm == before@.jvm
            &&& after@.discarded == before@.discarded
            &&& exists|described: BpfEvent|
                {
                    &&& #[trigger] describes(
                        described,
                        event,
                        observed,
                        before.ksyms@,
                        before.native_symbolization_unavailable@.contains(event.tgid),
                        timestamp->0,
                    )
                    &&& timestamp == Some(described.timestamp)
                    &&& described.pid == event.tgid
                    &&& described.host_tid == event.pid
                    &&& described.duration_us == event.offtime
                    &&& described.start_monotonic_ns == event.t_start
                    &&& described.end_monotonic_ns == event.t_end
                    &&& described.signal_result == event.signal_result
                    &&& exists|end: int|
                        {
                            &&& 0 <= end < 16
                            &&& #[trigger] event.name@[end] == 0
                            &&& forall|i: int| 0 <= i < end ==> event.name@[i] != 0
                            &&& described.comm@ == text::lossy_text(event.name@.take(end))
                        }
                    &&& frame_views(described.stacktrace@) == kernel_frames(
                        before.ksyms@,
                        event.kernel_stack_id,
                        observed.kernel_stack,
                    ) + user_frames(
                        before.native_symbolization_unavailable@.contains(event.tgid),
                        event.user_stack_id,
                        observed,
                    )
                    &&& described.tid == match observed.thread_status {
                        Ok(status) => namespace::innermost_pid(status@),
                        Err(_) => None,
                    }
                    &&& match described.tid {
                        Some(tid) => {
                            &&& after@.unmatched == before@.unmatched
                            &&& after@.bpf.contains_key(tid)
                            &&& after@.bpf[tid].to_multiset() == before@.intervals(
                                tid,
                            ).to_multiset().insert(described)
                            &&& after@.bpf.remove(tid) == before@.bpf.remove(tid)
                        },
                        None => {
                            &&& after@.unmatched == before@.unmatched.push(described)
                            &&& after@.bpf == before@.bpf
                        },
                    }
                }
        },
{
    lemma_name_len(event.name@);
    assert(result is Err <==> timestamp is None || forall|i: int|
        0 <= i < 16 ==> #[trigger] event.name@[i] != 0) by {
        if name_len(event.name@) < 16 {
            assert(event.name@[name_len(event.name@) as int] == 0);
        }
    }
    if result is Ok {
        let unavailable = before.native_symbolization_unavailable@.contains(event.tgid);
        let described = choose|described: BpfEvent|
            {
                &&& #[trigger] describes(
                    described,
                    event,
                    observed,
                    before.ksyms@,
                    unavailable,
                    timestamp->0,
                )
                &&& after@ == match thread_id(observed) {
                    Some(tid) => before@.with_interval(tid, described),
                    None => before@.with_unmatched(described),
                }
            };
        let end = name_len(event.name@) as int;
        assert(event.name@[end] == 0);
        if let Some(tid) = described.tid {
            let queue = before@.intervals(tid);
            arrival::lemma_not_later(queue, described.end_monotonic_ns);
            let at = arrival::arrival_position(queue, described.end_monotonic_ns);
            vstd::seq_lib::to_multiset_insert(queue, at, described);
            assert(after@.bpf.remove(tid) =~= before@.bpf.remove(tid));
        }
    }
}

/// Once the symbols of a process could not be had, they are not asked for again, and
/// for no other reason; a process stays marked.
pub proof fn law_a_process_without_symbols_is_remembered(
    before: EventStream,
    after: EventStream,
    event: BlockEvent,
    observed: Observed,
    timestamp: Option<u64>,
    result: Result<bool, String>,
    tgid: u32,
)
    requires
        EventStream::adds(before, after, event, observed, timestamp, result),
    ensures
        after.native_symbolization_unavailable@.contains(tgid) <==> {
            ||| before.native_symbolization_unavailable@.contains(tgid)
            ||| tgid == event.tgid && event.user_stack_id >= 0 && observed.user_stack is Ok
                && observed.user_symbols is Some && observed.user_symbols->0 is Err
        },
{
}

/// Why an interval is not added: its thread has a name without an end, or else it has
/// no time.
pub proof fn law_an_interval_is_refused_for_a_reason(event: BlockEvent, timestamp: Option<u64>)
    ensures
        refusal(event, timestamp) == if (forall|i: int|
            0 <= i < 16 ==> #[trigger] event.name@[i] != 0) {
            Some("data provided does not contain a nul"@)
        } else if timestamp is None {
            Some("event time is out of range of the clocks"@)
        } else {
            None
        },
{
    lemma_name_len(event.name@);
    if name_len(event.name@) < 16 {
        assert(event.name@[name_len(event.name@) as int] == 0);
    }
}

} // verus!
