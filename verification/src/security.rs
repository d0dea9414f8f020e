//! The board before its first instruction: the initial levels of its pins and
//! the security attribution of its memory.

use vstd::prelude::*;

use crate::layout::{BoardLayout, MemoryRegion, PinConfig, PinState};
use crate::text::{contains, dec, hex8, lemma_grouped, lemma_pieces_are_kept, Text};

verus! {

// ---------------------------------------------------------------------------
// Pins
// ---------------------------------------------------------------------------

pub open spec fn pin_text(pin: PinConfig) -> Seq<char> {
    match pin.initial {
        PinState::Low => ""@ + pin.gpio@ + " DrivePin "@ + dec(pin.pin as nat) + " false\n"@,
        PinState::High => ""@ + pin.gpio@ + " DrivePin "@ + dec(pin.pin as nat) + " true\n"@,
        PinState::Floating => ""@ + pin.gpio@ + " ReleasePin "@ + dec(pin.pin as nat) + "\n"@,
    }
}

pub open spec fn pins_text(pins: Seq<PinConfig>, end: int) -> Seq<char>
    decreases end,
{
    if end <= 0 {
        ""@
    } else {
        pins_text(pins, end - 1) + pin_text(pins[end - 1])
    }
}

fn render_pin(pin: &PinConfig) -> (res: String)
    ensures
        res@ == pin_text(*pin),
{
    let gpio = pin.gpio.as_str();
    let number: u64 = pin.pin as u64;
    match pin.initial {
        PinState::Low => Text::new("").str(gpio).str(" DrivePin ").dec(number).str(
            " false\n",
        ).done(),
        PinState::High => Text::new("").str(gpio).str(" DrivePin ").dec(number).str(
            " true\n",
        ).done(),
        PinState::Floating => Text::new("").str(gpio).str(" ReleasePin ").dec(number).str(
            "\n",
        ).done(),
    }
}

/// The initial levels of the board's pins.
pub fn render_board_initialization_script(layout: &BoardLayout) -> (res: String)
    ensures
        res@ == pins_text(layout.board.pins@, layout.board.pins@.len() as int),
{
    let mut text = Text::new("");
    let mut i: usize = 0;
    while i < layout.board.pins.len()
        invariant
            i <= layout.board.pins@.len(),
            text@ == pins_text(layout.board.pins@, i as int),
        decreases layout.board.pins@.len() - i,
    {
        let pin = render_pin(&layout.board.pins[i]);
        text = text.str(pin.as_str());
        i = i + 1;
    }
    text.done()
}

// ---------------------------------------------------------------------------
// Security attribution
// ---------------------------------------------------------------------------

/// The addresses from `base` up to `end`.
#[derive(Clone, Copy, Debug, PartialEq, Eq, Structural)]
pub struct Span {
    pub base: u64,
    pub end: u64,
}

impl Span {
    pub open spec fn holds(self, address: int) -> bool {
        self.base <= address < self.end
    }
}

pub open spec fn span_of(region: MemoryRegion) -> Span {
    Span { base: region.base, end: (region.base + region.size) as u64 }
}

/// `span` put behind everything that starts no later.
pub open spec fn span_placed(sorted: Seq<Span>, span: Span) -> Seq<Span>
    decreases sorted.len(),
{
    if sorted.len() == 0 || sorted.last().base <= span.base {
        sorted.push(span)
    } else {
        span_placed(sorted.drop_last(), span).push(sorted.last())
    }
}

/// Those of the first `count` regions that start inside `physical`, by where
/// they start.
pub open spec fn starting_in(regions: Seq<MemoryRegion>, physical: Span, count: int) -> Seq<Span>
    decreases count,
{
    if count <= 0 {
        Seq::empty()
    } else {
        let earlier = starting_in(regions, physical, count - 1);
        if physical.holds(regions[count - 1].base as int) {
            span_placed(earlier, span_of(regions[count - 1]))
        } else {
            earlier
        }
    }
}

/// How far the first `count` of `taken` reach, from `base` on.
pub open spec fn reach(base: u64, taken: Seq<Span>, count: int) -> u64
    decreases count,
{
    if count <= 0 {
        base
    } else {
        let earlier = reach(base, taken, count - 1);
        if taken[count - 1].end > earlier {
            taken[count - 1].end
        } else {
            earlier
        }
    }
}

/// The gaps in front of the first `count` of `taken`.
pub open spec fn gaps_before(base: u64, taken: Seq<Span>, count: int) -> Seq<Span>
    decreases count,
{
    if count <= 0 {
        Seq::empty()
    } else {
        let earlier = gaps_before(base, taken, count - 1);
        let cursor = reach(base, taken, count - 1);
        if cursor < taken[count - 1].base {
            earlier.push(Span { base: cursor, end: taken[count - 1].base })
        } else {
            earlier
        }
    }
}

/// What `taken` leaves of `physical`.
pub open spec fn gaps(physical: Span, taken: Seq<Span>) -> Seq<Span> {
    let before = gaps_before(physical.base, taken, taken.len() as int);
    let cursor = reach(physical.base, taken, taken.len() as int);
    if cursor < physical.end {
        before.push(Span { base: cursor, end: physical.end })
    } else {
        before
    }
}

impl BoardLayout {
    /// Flash, then each RAM bank.
    pub open spec fn physical_span(&self, index: int) -> Span {
        if index == 0 {
            Span {
                base: self.memory.flash_base,
                end: (self.memory.flash_base + self.memory.flash_size) as u64,
            }
        } else {
            span_of(self.memory.ram_regions@[index - 1])
        }
    }

    /// All addresses of the layout are addresses of this machine.
    pub open spec fn addresses_fit(&self) -> bool {
        &&& self.memory.flash_base + self.memory.flash_size <= u64::MAX
        &&& forall|i: int|
            0 <= i < self.memory.ram_regions@.len() ==> (
            #[trigger] self.memory.ram_regions@[i]).base + self.memory.ram_regions@[i].size
                <= u64::MAX
        &&& forall|i: int|
            0 <= i < self.board.security.secure_regions@.len() ==> (
            #[trigger] self.board.security.secure_regions@[i]).base
                + self.board.security.secure_regions@[i].size <= u64::MAX
    }

    /// What the secure regions leave of the first `count` physical ranges.
    pub open spec fn non_secure(&self, count: int) -> Seq<Span>
        decreases count,
    {
        if count <= 0 {
            Seq::empty()
        } else {
            let physical = self.physical_span(count - 1);
            let secure = self.board.security.secure_regions@;
            self.non_secure(count - 1) + gaps(
                physical,
                starting_in(secure, physical, secure.len() as int),
            )
        }
    }

    pub open spec fn non_secure_spans(&self) -> Seq<Span> {
        self.non_secure(self.memory.ram_regions@.len() as int + 1)
    }
}

fn place_span(sorted: &mut Vec<Span>, span: Span)
    ensures
        final(sorted)@ == span_placed(old(sorted)@, span),
{
    let ghost before = sorted@;
    let mut at: usize = sorted.len();
    assert(before.take(at as int) =~= before);
    assert(span_placed(before, span) + before.skip(at as int) =~= span_placed(before, span));
    while at > 0 && sorted[at - 1].base > span.base
        invariant
            at <= before.len(),
            sorted@ == before,
            span_placed(before, span) == span_placed(before.take(at as int), span) + before.skip(
                at as int,
            ),
        decreases at,
    {
        proof {
            let head = before.take(at as int);
            assert(head.drop_last() =~= before.take(at - 1));
            assert(span_placed(before.take(at - 1), span).push(head.last()) + before.skip(
                at as int,
            ) =~= span_placed(before.take(at - 1), span) + before.skip(at - 1));
        }
        at = at - 1;
    }
    sorted.insert(at, span);
    assert(sorted@ =~= before.take(at as int).push(span) + before.skip(at as int));
}

fn collect_starting_in(regions: &[MemoryRegion], physical: Span) -> (res: Vec<Span>)
    requires
        forall|i: int|
            0 <= i < regions@.len() ==> (#[trigger] regions@[i]).base + regions@[i].size
                <= u64::MAX,
    ensures
        res@ == starting_in(regions@, physical, regions@.len() as int),
{
    let mut sorted: Vec<Span> = Vec::new();
    let mut i: usize = 0;
    while i < regions.len()
        invariant
            i <= regions@.len(),
            forall|k: int|
                0 <= k < regions@.len() ==> (#[trigger] regions@[k]).base + regions@[k].size
                    <= u64::MAX,
            sorted@ == starting_in(regions@, physical, i as int),
        decreases regions@.len() - i,
    {
        let region = &regions[i];
        if region.base >= physical.base && region.base < physical.end {
            place_span(
                &mut sorted,
                Span { base: region.base, end: region.base + region.size },
            );
        }
        i = i + 1;
    }
    sorted
}

fn push_gaps(result: &mut Vec<Span>, physical: Span, taken: &[Span])
    ensures
        final(result)@ == old(result)@ + gaps(physical, taken@),
{
    let ghost start = result@;
    let mut cursor: u64 = physical.base;
    let mut i: usize = 0;
    assert(start + gaps_before(physical.base, taken@, 0) =~= start);
    while i < taken.len()
        invariant
            i <= taken@.len(),
            cursor == reach(physical.base, taken@, i as int),
            result@ == start + gaps_before(physical.base, taken@, i as int),
        decreases taken@.len() - i,
    {
        let ghost before = result@;
        if cursor < taken[i].base {
            result.push(Span { base: cursor, end: taken[i].base });
        }
        if taken[i].end > cursor {
            cursor = taken[i].end;
        }
        i = i + 1;
        assert(result@ =~= start + gaps_before(physical.base, taken@, i as int));
    }
    if cursor < physical.end {
        result.push(Span { base: cursor, end: physical.end });
    }
    assert(result@ =~= start + gaps(physical, taken@));
}

/// What the secure regions leave of flash and of each RAM bank.
pub fn non_secure_regions(layout: &BoardLayout) -> (res: Vec<Span>)
    requires
        layout.addresses_fit(),
    ensures
        res@ == layout.non_secure_spans(),
{
    let secure = layout.board.security.secure_regions.as_slice();
    let mut result: Vec<Span> = Vec::new();
    let flash = Span {
        base: layout.memory.flash_base,
        end: layout.memory.flash_base + layout.memory.flash_size,
    };
    let inside = collect_starting_in(secure, flash);
    push_gaps(&mut result, flash, inside.as_slice());
    assert(layout.non_secure(0) =~= Seq::<Span>::empty());
    assert(result@ == layout.non_secure(1));
    let mut i: usize = 0;
    while i < layout.memory.ram_regions.len()
        invariant
            i <= layout.memory.ram_regions@.len(),
            layout.addresses_fit(),
            secure@ == layout.board.security.secure_regions@,
            result@ == layout.non_secure(i + 1),
        decreases layout.memory.ram_regions@.len() - i,
    {
        let region = &layout.memory.ram_regions[i];
        let bank = Span { base: region.base, end: region.base + region.size };
        let inside = collect_starting_in(secure, bank);
        push_gaps(&mut result, bank, inside.as_slice());
        assert(layout.physical_span(i + 1) == bank);
        i = i + 1;
    }
    result
}

pub open spec fn sau_text(spans: Seq<Span>, end: int) -> Seq<char>
    decreases end,
{
    if end <= 0 {
        ""@
    } else {
        sau_text(spans, end - 1) + "cpu SAURegionNumber "@ + dec((end - 1) as nat)
            + "\ncpu SAURegionBaseAddress 0x"@ + hex8(spans[end - 1].base as nat)
            + "\ncpu SAURegionLimitAddress 0x"@ + hex8(
            ((spans[end - 1].end - 1) as u64 | 1) as nat,
        ) + "\n"@
    }
}

pub open spec fn security_text(layout: BoardLayout) -> Seq<char> {
    if layout.board.security.secure_regions@.len() == 0 {
        ""@
    } else {
        sau_text(layout.non_secure_spans(), layout.non_secure_spans().len() as int)
            + "cpu SAUControl 1\n"@
    }
}

proof fn lemma_gaps_nonempty(base: u64, taken: Seq<Span>, count: int)
    requires
        0 <= count <= taken.len(),
    ensures
        forall|i: int|
            0 <= i < gaps_before(base, taken, count).len() ==> (#[trigger] gaps_before(
                base,
                taken,
                count,
            )[i]).base < gaps_before(base, taken, count)[i].end,
    decreases count,
{
    if count > 0 {
        lemma_gaps_nonempty(base, taken, count - 1);
        let before = gaps_before(base, taken, count - 1);
        let now = gaps_before(base, taken, count);
        assert forall|i: int| 0 <= i < now.len() implies (#[trigger] now[i]).base < now[i].end by {
            if i < before.len() {
                assert(now[i] == before[i]);
            }
        }
    }
}

proof fn lemma_non_secure_nonempty(layout: BoardLayout, count: int)
    ensures
        forall|i: int|
            0 <= i < layout.non_secure(count).len() ==> (#[trigger] layout.non_secure(
                count,
            )[i]).base < layout.non_secure(count)[i].end,
    decreases count,
{
    if count > 0 {
        lemma_non_secure_nonempty(layout, count - 1);
        let physical = layout.physical_span(count - 1);
        let secure = layout.board.security.secure_regions@;
        let taken = starting_in(secure, physical, secure.len() as int);
        lemma_gaps_nonempty(physical.base, taken, taken.len() as int);
        let earlier = layout.non_secure(count - 1);
        let whole = layout.non_secure(count);
        assert forall|i: int| 0 <= i < whole.len() implies (#[trigger] whole[i]).base
            < whole[i].end by {
            if i < earlier.len() {
                assert(whole[i] == earlier[i]);
            } else {
                assert(whole[i] == gaps(physical, taken)[i - earlier.len()]);
            }
        }
    }
}

/// Programs the attribution unit: everything that is not secure is named.
pub fn render_security_script(layout: &BoardLayout) -> (res: String)
    requires
        layout.addresses_fit(),
    ensures
        res@ == security_text(*layout),
{
    if layout.board.security.secure_regions.len() == 0 {
        return "".to_owned();
    }
    let spans = non_secure_regions(layout);
    proof {
        lemma_non_secure_nonempty(*layout, layout.memory.ram_regions@.len() as int + 1);
    }
    let mut text = Text::new("");
    let mut i: usize = 0;
    while i < spans.len()
        invariant
            i <= spans@.len(),
            forall|k: int| 0 <= k < spans@.len() ==> (#[trigger] spans@[k]).base < spans@[k].end,
            text@ == sau_text(spans@, i as int),
        decreases spans@.len() - i,
    {
        text =
        text.str("cpu SAURegionNumber ").dec(i as u64).str("\ncpu SAURegionBaseAddress 0x").hex8(
            spans[i].base,
        ).str("\ncpu SAURegionLimitAddress 0x").hex8((spans[i].end - 1) | 1).str("\n");
        i = i + 1;
    }
    text.str("cpu SAUControl 1\n").done()
}

spec fn ascending(spans: Seq<Span>) -> bool {
    forall|i: int, j: int|
        0 <= i <= j < spans.len() ==> (#[trigger] spans[i]).base <= (#[trigger] spans[j]).base
}

proof fn lemma_span_placed(sorted: Seq<Span>, span: Span)
    requires
        ascending(sorted),
    ensures
        ascending(span_placed(sorted, span)),
        span_placed(sorted, span).len() == sorted.len() + 1,
        span_placed(sorted, span).last() == span || sorted.len() > 0 && span_placed(
            sorted,
            span,
        ).last() == sorted.last(),
        forall|x: Span|
            #[trigger] span_placed(sorted, span).contains(x) <==> sorted.contains(x) || x == span,
    decreases sorted.len(),
{
    broadcast use vstd::seq_lib::group_seq_properties;

    let whole = span_placed(sorted, span);
    if sorted.len() == 0 || sorted.last().base <= span.base {
        assert forall|i: int, j: int| 0 <= i <= j < whole.len() implies (#[trigger] whole[i]).base
            <= (#[trigger] whole[j]).base by {
            if i < sorted.len() {
                assert(sorted[i].base <= sorted[sorted.len() - 1].base);
            }
        }
    } else {
        let init = sorted.drop_last();
        lemma_span_placed(init, span);
        let front = span_placed(init, span);
        assert(whole == front.push(sorted.last()));
        assert(front.last().base <= sorted.last().base) by {
            if init.len() > 0 {
                assert(init.last() == sorted[sorted.len() - 2]);
            }
        }
        assert forall|i: int, j: int| 0 <= i <= j < whole.len() implies (#[trigger] whole[i]).base
            <= (#[trigger] whole[j]).base by {
            if j == front.len() && i < front.len() {
                assert(front[i].base <= front[front.len() - 1].base);
            } else if j < front.len() {
                assert(front[i].base <= front[j].base);
            }
        }
        assert forall|x: Span| #[trigger] whole.contains(x) <==> sorted.contains(x) || x
            == span by {
            assert(init.push(sorted.last()) =~= sorted);
            assert(whole.contains(x) <==> front.contains(x) || x == sorted.last());
            assert(sorted.contains(x) <==> init.contains(x) || x == sorted.last());
        }
    }
}

proof fn lemma_starting_in(regions: Seq<MemoryRegion>, physical: Span, count: int)
    requires
        0 <= count <= regions.len(),
    ensures
        ascending(starting_in(regions, physical, count)),
        forall|k: int|
            0 <= k < count && physical.holds((#[trigger] regions[k]).base as int) ==> starting_in(
                regions,
                physical,
                count,
            ).contains(span_of(regions[k])),
        forall|x: Span|
            #[trigger] starting_in(regions, physical, count).contains(x) ==> exists|k: int|
                0 <= k < count && physical.holds(regions[k].base as int) && x == #[trigger] span_of(
                    regions[k],
                ),
    decreases count,
{
    if count > 0 {
        lemma_starting_in(regions, physical, count - 1);
        let earlier = starting_in(regions, physical, count - 1);
        let region = regions[count - 1];
        let whole = starting_in(regions, physical, count);
        if physical.holds(region.base as int) {
            lemma_span_placed(earlier, span_of(region));
        }
        assert forall|x: Span| #[trigger] whole.contains(x) implies exists|k: int|
            0 <= k < count && physical.holds(regions[k].base as int) && x == #[trigger] span_of(
                regions[k],
            ) by {
            if earlier.contains(x) {
                let k = choose|k: int|
                    0 <= k < count - 1 && physical.holds(regions[k].base as int) && x
                        == #[trigger] span_of(regions[k]);
                assert(0 <= k < count && x == span_of(regions[k]));
            } else {
                assert(x == span_of(regions[count - 1]));
            }
        }
    }
}

/// One of the spans holds the address.
pub open spec fn held_by(spans: Seq<Span>, address: int) -> bool {
    exists|i: int| 0 <= i < spans.len() && (#[trigger] spans[i]).holds(address)
}

proof fn lemma_gaps_before(base: u64, taken: Seq<Span>, count: int, address: int)
    requires
        0 <= count <= taken.len(),
        ascending(taken),
        forall|i: int| 0 <= i < taken.len() ==> (#[trigger] taken[i]).base <= taken[i].end,
        base <= address,
    ensures
        reach(base, taken, count) >= base,
        address >= reach(base, taken, count) ==> !held_by(gaps_before(base, taken, count), address)
            && !held_by(taken.take(count), address),
        address < reach(base, taken, count) ==> (held_by(gaps_before(base, taken, count), address)
            <==> !held_by(taken.take(count), address)),
        forall|i: int|
            0 <= i < gaps_before(base, taken, count).len() ==> count > 0 && (#[trigger] gaps_before(
                base,
                taken,
                count,
            )[i]).end <= taken[count - 1].base,
    decreases count,
{
    let now = gaps_before(base, taken, count);
    if count == 0 {
        assert(taken.take(0) =~= Seq::<Span>::empty());
    } else {
        lemma_gaps_before(base, taken, count - 1, address);
        let before = gaps_before(base, taken, count - 1);
        let cursor = reach(base, taken, count - 1);
        let span = taken[count - 1];
        assert(taken.take(count) =~= taken.take(count - 1).push(span));
        let earlier = taken.take(count - 1);
        assert(held_by(taken.take(count), address) <==> held_by(earlier, address) || span.holds(
            address,
        )) by {
            let all = taken.take(count);
            if held_by(earlier, address) {
                let i = choose|i: int|
                    0 <= i < earlier.len() && (#[trigger] earlier[i]).holds(address);
                assert(all[i].holds(address));
            }
            if span.holds(address) {
                assert(all[count - 1].holds(address));
            }
            if held_by(all, address) {
                let i = choose|i: int| 0 <= i < all.len() && (#[trigger] all[i]).holds(address);
                if i < count - 1 {
                    assert(earlier[i].holds(address));
                }
            }
        }
        if count > 1 {
            assert(taken[count - 2].base <= span.base);
        }
        assert forall|i: int| 0 <= i < now.len() implies (#[trigger] now[i]).end <= span.base by {
            if i < before.len() {
                assert(now[i] == before[i]);
            }
        }
        if cursor < span.base {
            let gap = Span { base: cursor, end: span.base };
            assert(now == before.push(gap));
            assert(held_by(now, address) <==> held_by(before, address) || gap.holds(address)) by {
                if held_by(before, address) {
                    let i = choose|i: int|
                        0 <= i < before.len() && (#[trigger] before[i]).holds(address);
                    assert(now[i].holds(address));
                }
                if gap.holds(address) {
                    assert(now[before.len() as int].holds(address));
                }
                if held_by(now, address) {
                    let i = choose|i: int| 0 <= i < now.len() && (#[trigger] now[i]).holds(address);
                    if i < before.len() {
                        assert(before[i].holds(address));
                    }
                }
            }
        }
        if held_by(before, address) {
            let i = choose|i: int| 0 <= i < before.len() && (#[trigger] before[i]).holds(address);
            assert(before[i].end <= taken[count - 2].base);
            assert(!span.holds(address));
        }
    }
}

/// A secure region that starts in the physical range holds the address.
pub open spec fn taken_in(regions: Seq<MemoryRegion>, physical: Span, address: int) -> bool {
    exists|k: int|
        0 <= k < regions.len() && physical.holds(regions[k].base as int) && (#[trigger] span_of(
            regions[k],
        )).holds(address)
}

/// Inside a physical range, the regions named as non-secure are exactly what
/// the secure regions that start in it leave.
pub proof fn law_non_secure_is_the_complement(
    regions: Seq<MemoryRegion>,
    physical: Span,
    address: int,
)
    requires
        physical.holds(address),
        forall|k: int|
            0 <= k < regions.len() ==> (#[trigger] regions[k]).base + regions[k].size <= u64::MAX,
    ensures
        (exists|i: int|
            0 <= i < gaps(
                physical,
                starting_in(regions, physical, regions.len() as int),
            ).len() && (#[trigger] gaps(
                physical,
                starting_in(regions, physical, regions.len() as int),
            )[i]).holds(address)) <==> !taken_in(regions, physical, address),
{
    let taken = starting_in(regions, physical, regions.len() as int);
    let count = taken.len() as int;
    let all = gaps(physical, taken);
    let before = gaps_before(physical.base, taken, count);
    let cursor = reach(physical.base, taken, count);
    lemma_starting_in(regions, physical, regions.len() as int);
    assert forall|i: int| 0 <= i < taken.len() implies (#[trigger] taken[i]).base
        <= taken[i].end by {
        assert(taken.contains(taken[i]));
    }
    lemma_gaps_before(physical.base, taken, count, address);
    assert(taken.take(count) =~= taken);
    assert(held_by(all, address) <==> held_by(before, address) || cursor <= address) by {
        if held_by(before, address) {
            let i = choose|i: int| 0 <= i < before.len() && (#[trigger] before[i]).holds(address);
            assert(all[i].holds(address));
        }
        if cursor <= address {
            assert(all[before.len() as int].holds(address));
        }
        if held_by(all, address) {
            let i = choose|i: int| 0 <= i < all.len() && (#[trigger] all[i]).holds(address);
            if i < before.len() {
                assert(before[i].holds(address));
            }
        }
    }
    if held_by(taken, address) {
        let i = choose|i: int| 0 <= i < taken.len() && (#[trigger] taken[i]).holds(address);
        assert(taken.contains(taken[i]));
        let k = choose|k: int|
            0 <= k < regions.len() && physical.holds(regions[k].base as int) && taken[i]
                == #[trigger] span_of(regions[k]);
        assert(span_of(regions[k]).holds(address));
    }
    if exists|k: int|
        0 <= k < regions.len() && physical.holds(regions[k].base as int) && (#[trigger] span_of(
            regions[k],
        )).holds(address) {
        let k = choose|k: int|
            0 <= k < regions.len() && physical.holds(regions[k].base as int) && (
            #[trigger] span_of(regions[k])).holds(address);
        assert(taken.contains(span_of(regions[k])));
        let i = choose|i: int| 0 <= i < taken.len() && taken[i] == span_of(regions[k]);
        assert(taken[i].holds(address));
    }
}

/// The spans are nonempty, lie in `physical` and follow each other.
spec fn in_sequence(spans: Seq<Span>, physical: Span) -> bool {
    &&& forall|i: int|
        0 <= i < spans.len() ==> physical.base <= (#[trigger] spans[i]).base < spans[i].end
            <= physical.end
    &&& forall|i: int, j: int|
        0 <= i < j < spans.len() ==> (#[trigger] spans[i]).end <= (#[trigger] spans[j]).base
}

proof fn lemma_gaps_in_sequence(physical: Span, taken: Seq<Span>, count: int)
    requires
        0 <= count <= taken.len(),
        forall|i: int|
            0 <= i < taken.len() ==> physical.holds((#[trigger] taken[i]).base as int)
                && taken[i].base <= taken[i].end,
    ensures
        in_sequence(gaps_before(physical.base, taken, count), physical),
        physical.base <= reach(physical.base, taken, count),
        forall|i: int|
            0 <= i < gaps_before(physical.base, taken, count).len() ==> (#[trigger] gaps_before(
                physical.base,
                taken,
                count,
            )[i]).end <= reach(physical.base, taken, count),
    decreases count,
{
    if count > 0 {
        lemma_gaps_in_sequence(physical, taken, count - 1);
        let before = gaps_before(physical.base, taken, count - 1);
        let now = gaps_before(physical.base, taken, count);
        assert forall|i: int, j: int| 0 <= i < j < now.len() implies (#[trigger] now[i]).end <= (
        #[trigger] now[j]).base by {
            assert(now[i] == before[i]);
            if j < before.len() {
                assert(now[j] == before[j]);
            }
        }
        assert forall|i: int| 0 <= i < now.len() implies physical.base <= (#[trigger] now[i]).base
            < now[i].end <= physical.end by {
            if i < before.len() {
                assert(now[i] == before[i]);
            }
        }
        assert forall|i: int| 0 <= i < now.len() implies (#[trigger] now[i]).end <= reach(
            physical.base,
            taken,
            count,
        ) by {
            if i < before.len() {
                assert(now[i] == before[i]);
            }
        }
    }
}

proof fn lemma_gaps(regions: Seq<MemoryRegion>, physical: Span)
    requires
        forall|k: int|
            0 <= k < regions.len() ==> (#[trigger] regions[k]).base + regions[k].size <= u64::MAX,
    ensures
        in_sequence(
            gaps(physical, starting_in(regions, physical, regions.len() as int)),
            physical,
        ),
{
    let taken = starting_in(regions, physical, regions.len() as int);
    lemma_starting_in(regions, physical, regions.len() as int);
    assert forall|i: int| 0 <= i < taken.len() implies physical.holds(
        (#[trigger] taken[i]).base as int,
    ) && taken[i].base <= taken[i].end by {
        assert(taken.contains(taken[i]));
    }
    lemma_gaps_in_sequence(physical, taken, taken.len() as int);
    let before = gaps_before(physical.base, taken, taken.len() as int);
    let all = gaps(physical, taken);
    assert forall|i: int, j: int| 0 <= i < j < all.len() implies (#[trigger] all[i]).end <= (
    #[trigger] all[j]).base by {
        assert(all[i] == before[i]);
        if j < before.len() {
            assert(all[j] == before[j]);
        }
    }
    assert forall|i: int| 0 <= i < all.len() implies physical.base <= (#[trigger] all[i]).base
        < all[i].end <= physical.end by {
        if i < before.len() {
            assert(all[i] == before[i]);
        }
    }
}

/// The two spans share no address.
pub open spec fn apart(a: Span, b: Span) -> bool {
    a.end <= b.base || b.end <= a.base
}

/// No two of the first `count` physical ranges share an address.
pub open spec fn physical_apart(layout: BoardLayout, count: int) -> bool {
    forall|p: int, q: int|
        #![trigger layout.physical_span(p), layout.physical_span(q)]
        0 <= p < q < count ==> apart(layout.physical_span(p), layout.physical_span(q))
}

impl BoardLayout {
    /// The address lies in flash or in a RAM bank.
    pub open spec fn mapped(&self, address: int) -> bool {
        exists|p: int|
            0 <= p <= self.memory.ram_regions@.len() && (#[trigger] self.physical_span(p)).holds(
                address,
            )
    }

    /// The address lies in a secure region.
    pub open spec fn secured(&self, address: int) -> bool {
        exists|k: int|
            0 <= k < self.board.security.secure_regions@.len() && (#[trigger] span_of(
                self.board.security.secure_regions@[k],
            )).holds(address)
    }

    /// Flash shares no address with a RAM bank.
    pub open spec fn flash_apart(&self) -> bool {
        forall|i: int|
            0 <= i < self.memory.ram_regions@.len() ==> apart(
                self.physical_span(0),
                span_of(#[trigger] self.memory.ram_regions@[i]),
            )
    }
}

/// What is known of the non-secure spans of the first `count` physical ranges.
pub proof fn lemma_non_secure(layout: BoardLayout, count: int, address: int)
    requires
        layout.addresses_fit(),
        0 <= count <= layout.memory.ram_regions@.len() + 1,
    ensures
        forall|i: int|
            0 <= i < layout.non_secure(count).len() ==> (#[trigger] layout.non_secure(
                count,
            )[i]).base < layout.non_secure(count)[i].end && exists|p: int|
                0 <= p < count && (#[trigger] layout.physical_span(p)).base
                    <= layout.non_secure(count)[i].base && layout.non_secure(count)[i].end
                    <= layout.physical_span(p).end,
        physical_apart(layout, count) ==> forall|i: int, j: int|
            0 <= i < j < layout.non_secure(count).len() ==> apart(
                #[trigger] layout.non_secure(count)[i],
                #[trigger] layout.non_secure(count)[j],
            ),
        held_by(layout.non_secure(count), address) <==> exists|p: int|
            0 <= p < count && (#[trigger] layout.physical_span(p)).holds(address) && !taken_in(
                layout.board.security.secure_regions@,
                layout.physical_span(p),
                address,
            ),
    decreases count,
{
    if count > 0 {
        lemma_non_secure(layout, count - 1, address);
        let secure = layout.board.security.secure_regions@;
        let physical = layout.physical_span(count - 1);
        let earlier = layout.non_secure(count - 1);
        let added = gaps(physical, starting_in(secure, physical, secure.len() as int));
        let whole = layout.non_secure(count);
        lemma_gaps(secure, physical);
        assert(whole == earlier + added);
        assert forall|i: int| 0 <= i < whole.len() implies (#[trigger] whole[i]).base
            < whole[i].end && exists|p: int|
            0 <= p < count && (#[trigger] layout.physical_span(p)).base <= whole[i].base
                && whole[i].end <= layout.physical_span(p).end by {
            if i < earlier.len() {
                assert(whole[i] == earlier[i]);
                let p = choose|p: int|
                    0 <= p < count - 1 && (#[trigger] layout.physical_span(p)).base
                        <= earlier[i].base && earlier[i].end <= layout.physical_span(p).end;
                assert(layout.physical_span(p).base <= whole[i].base);
            } else {
                assert(whole[i] == added[i - earlier.len()]);
                assert(physical.base <= whole[i].base);
            }
        }
        if physical_apart(layout, count) {
            assert(physical_apart(layout, count - 1));
            assert forall|i: int, j: int| 0 <= i < j < whole.len() implies apart(
                #[trigger] whole[i],
                #[trigger] whole[j],
            ) by {
                if j < earlier.len() {
                    assert(whole[i] == earlier[i] && whole[j] == earlier[j]);
                } else if i < earlier.len() {
                    assert(whole[i] == earlier[i] && whole[j] == added[j - earlier.len()]);
                    let p = choose|p: int|
                        0 <= p < count - 1 && (#[trigger] layout.physical_span(p)).base
                            <= earlier[i].base && earlier[i].end <= layout.physical_span(p).end;
                    assert(apart(layout.physical_span(p), layout.physical_span(count - 1)));
                } else {
                    assert(whole[i] == added[i - earlier.len()]);
                    assert(whole[j] == added[j - earlier.len()]);
                }
            }
        }
        assert(held_by(whole, address) <==> held_by(earlier, address) || held_by(
            added,
            address,
        )) by {
            if held_by(earlier, address) {
                let i = choose|i: int|
                    0 <= i < earlier.len() && (#[trigger] earlier[i]).holds(address);
                assert(whole[i].holds(address));
            }
            if held_by(added, address) {
                let i = choose|i: int| 0 <= i < added.len() && (#[trigger] added[i]).holds(address);
                assert(whole[earlier.len() + i].holds(address));
            }
            if held_by(whole, address) {
                let i = choose|i: int| 0 <= i < whole.len() && (#[trigger] whole[i]).holds(address);
                if i < earlier.len() {
                    assert(earlier[i].holds(address));
                } else {
                    assert(added[i - earlier.len()].holds(address));
                }
            }
        }
        if physical.holds(address) {
            law_non_secure_is_the_complement(secure, physical, address);
        } else if held_by(added, address) {
            let i = choose|i: int| 0 <= i < added.len() && (#[trigger] added[i]).holds(address);
        }
        assert(held_by(added, address) <==> physical.holds(address) && !taken_in(
            secure,
            physical,
            address,
        ));
        if held_by(earlier, address) {
            let p = choose|p: int|
                0 <= p < count - 1 && (#[trigger] layout.physical_span(p)).holds(address)
                    && !taken_in(secure, layout.physical_span(p), address);
            assert(layout.physical_span(p).holds(address));
        }
        if exists|p: int|
            0 <= p < count && (#[trigger] layout.physical_span(p)).holds(address) && !taken_in(
                secure,
                layout.physical_span(p),
                address,
            ) {
            let p = choose|p: int|
                0 <= p < count && (#[trigger] layout.physical_span(p)).holds(address) && !taken_in(
                    secure,
                    layout.physical_span(p),
                    address,
                );
            if p < count - 1 {
                assert(held_by(earlier, address));
            }
        }
    }
}

// ---------------------------------------------------------------------------
// The order in which regions are written
// ---------------------------------------------------------------------------

/// No two of the regions start at one address.
pub open spec fn bases_differ(regions: Seq<MemoryRegion>) -> bool {
    forall|i: int, j: int|
        0 <= i < j < regions.len() ==> (#[trigger] regions[i]).base != (#[trigger] regions[j]).base
}

/// One of `those` starts and ends where the region does.
pub open spec fn found_in(region: MemoryRegion, those: Seq<MemoryRegion>) -> bool {
    exists|j: int|
        0 <= j < those.len() && (#[trigger] those[j]).base == region.base && those[j].size
            == region.size
}

pub open spec fn found_among(these: Seq<MemoryRegion>, those: Seq<MemoryRegion>) -> bool {
    forall|i: int| 0 <= i < these.len() ==> found_in(#[trigger] these[i], those)
}

spec fn strictly_ascending(spans: Seq<Span>) -> bool {
    forall|i: int, j: int|
        0 <= i < j < spans.len() ==> (#[trigger] spans[i]).base < (#[trigger] spans[j]).base
}

proof fn lemma_placed_strictly(sorted: Seq<Span>, span: Span)
    requires
        strictly_ascending(sorted),
        forall|i: int| 0 <= i < sorted.len() ==> (#[trigger] sorted[i]).base != span.base,
    ensures
        strictly_ascending(span_placed(sorted, span)),
    decreases sorted.len(),
{
    let whole = span_placed(sorted, span);
    if sorted.len() == 0 || sorted.last().base <= span.base {
        assert forall|i: int, j: int| 0 <= i < j < whole.len() implies (#[trigger] whole[i]).base
            < (#[trigger] whole[j]).base by {
            if i < sorted.len() - 1 {
                assert(sorted[i].base < sorted[sorted.len() - 1].base);
            }
        }
    } else {
        let init = sorted.drop_last();
        lemma_placed_strictly(init, span);
        lemma_span_placed(init, span);
        let front = span_placed(init, span);
        assert forall|i: int, j: int| 0 <= i < j < whole.len() implies (#[trigger] whole[i]).base
            < (#[trigger] whole[j]).base by {
            if j < front.len() {
                assert(front[i].base < front[j].base);
            } else {
                assert(front.contains(front[i]));
                if front[i] != span {
                    let at = choose|at: int| 0 <= at < init.len() && init[at] == front[i];
                    assert(sorted[at].base < sorted[sorted.len() - 1].base);
                }
            }
        }
    }
}

proof fn lemma_starting_strictly(regions: Seq<MemoryRegion>, physical: Span, count: int)
    requires
        0 <= count <= regions.len(),
        bases_differ(regions),
    ensures
        strictly_ascending(starting_in(regions, physical, count)),
    decreases count,
{
    if count > 0 {
        let earlier = starting_in(regions, physical, count - 1);
        lemma_starting_strictly(regions, physical, count - 1);
        lemma_starting_in(regions, physical, count - 1);
        if physical.holds(regions[count - 1].base as int) {
            assert forall|i: int| 0 <= i < earlier.len() implies (#[trigger] earlier[i]).base
                != regions[count - 1].base by {
                assert(earlier.contains(earlier[i]));
                let k = choose|k: int|
                    0 <= k < count - 1 && physical.holds(regions[k].base as int) && earlier[i]
                        == #[trigger] span_of(regions[k]);
                assert(regions[k].base != regions[count - 1].base);
            }
            lemma_placed_strictly(earlier, span_of(regions[count - 1]));
        }
    }
}

proof fn lemma_same_members(a: Seq<Span>, b: Seq<Span>)
    requires
        strictly_ascending(a),
        strictly_ascending(b),
        forall|x: Span| #[trigger] a.contains(x) <==> b.contains(x),
    ensures
        a == b,
    decreases a.len(),
{
    if a.len() == 0 {
        if b.len() > 0 {
            assert(b.contains(b[0]));
            assert(a.contains(b[0]));
        }
        assert(a =~= b);
    } else {
        assert(a.contains(a.last()));
        let at = choose|at: int| 0 <= at < b.len() && b[at] == a.last();
        assert(b.contains(b.last()));
        assert(a.contains(b.last()));
        let back = choose|back: int| 0 <= back < a.len() && a[back] == b.last();
        assert(a.last() == b.last()) by {
            if at < b.len() - 1 {
                assert(b[at].base < b[b.len() - 1].base);
                if back < a.len() - 1 {
                    assert(a[back].base < a[a.len() - 1].base);
                }
            }
        }
        let front = a.drop_last();
        let other = b.drop_last();
        assert forall|x: Span| #[trigger] front.contains(x) <==> other.contains(x) by {
            if front.contains(x) {
                let i = choose|i: int| 0 <= i < front.len() && front[i] == x;
                assert(a[i] == x && a[i].base < a[a.len() - 1].base);
                assert(a.contains(x));
                let j = choose|j: int| 0 <= j < b.len() && b[j] == x;
                assert(other[j] == x);
            }
            if other.contains(x) {
                let i = choose|i: int| 0 <= i < other.len() && other[i] == x;
                assert(b[i] == x && b[i].base < b[b.len() - 1].base);
                assert(b.contains(x));
                assert(a.contains(x));
                let j = choose|j: int| 0 <= j < a.len() && a[j] == x;
                assert(front[j] == x);
            }
        }
        lemma_same_members(front, other);
        assert(a =~= front.push(a.last()));
        assert(b =~= other.push(b.last()));
    }
}

proof fn lemma_starting_among(
    these: Seq<MemoryRegion>,
    those: Seq<MemoryRegion>,
    physical: Span,
    span: Span,
)
    requires
        found_among(these, those),
        starting_in(these, physical, these.len() as int).contains(span),
    ensures
        starting_in(those, physical, those.len() as int).contains(span),
{
    lemma_starting_in(these, physical, these.len() as int);
    lemma_starting_in(those, physical, those.len() as int);
    let k = choose|k: int|
        0 <= k < these.len() && physical.holds(these[k].base as int) && span == #[trigger] span_of(
            these[k],
        );
    assert(found_in(these[k], those));
    let j = choose|j: int|
        0 <= j < those.len() && (#[trigger] those[j]).base == these[k].base && those[j].size
            == these[k].size;
    assert(span_of(those[j]) == span);
}

/// Two layouts over one memory map, whose secure regions are the same in some
/// order, have the same non-secure spans.
pub proof fn lemma_order_of_regions(a: BoardLayout, b: BoardLayout, count: int)
    requires
        a.memory == b.memory,
        bases_differ(a.board.security.secure_regions@),
        bases_differ(b.board.security.secure_regions@),
        found_among(a.board.security.secure_regions@, b.board.security.secure_regions@),
        found_among(b.board.security.secure_regions@, a.board.security.secure_regions@),
    ensures
        a.non_secure(count) == b.non_secure(count),
    decreases count,
{
    if count > 0 {
        lemma_order_of_regions(a, b, count - 1);
        let these = a.board.security.secure_regions@;
        let those = b.board.security.secure_regions@;
        let physical = a.physical_span(count - 1);
        let left = starting_in(these, physical, these.len() as int);
        let right = starting_in(those, physical, those.len() as int);
        lemma_starting_strictly(these, physical, these.len() as int);
        lemma_starting_strictly(those, physical, those.len() as int);
        assert forall|x: Span| #[trigger] left.contains(x) <==> right.contains(x) by {
            if left.contains(x) {
                lemma_starting_among(these, those, physical, x);
            }
            if right.contains(x) {
                lemma_starting_among(those, these, physical, x);
            }
        }
        lemma_same_members(left, right);
    }
}

// ---------------------------------------------------------------------------
// What is told to the processor and the pins
// ---------------------------------------------------------------------------

/// The command that gives a pin its level.
pub open spec fn drive_command(gpio: Seq<char>, pin: nat, high: bool) -> Seq<char> {
    gpio + " DrivePin "@ + dec(pin) + if high {
        " true\n"@
    } else {
        " false\n"@
    }
}

proof fn lemma_pin_set(pins: Seq<PinConfig>, end: int, i: int)
    requires
        0 <= i < end <= pins.len(),
    ensures
        contains(pins_text(pins, end), pin_text(pins[i])),
    decreases end,
{
    lemma_pieces_are_kept(pin_text(pins[i]));
    if i < end - 1 {
        lemma_pin_set(pins, end - 1, i);
    }
}

/// Every pin that the board sets is driven to its level, and every pin that it
/// leaves open is released.
pub proof fn law_every_pin_is_set(pins: Seq<PinConfig>, i: int)
    requires
        0 <= i < pins.len(),
    ensures
        ({
            let text = pins_text(pins, pins.len() as int);
            let pin = pins[i];
            let number = pin.pin as nat;
            &&& pin.initial == PinState::High ==> contains(
                text,
                drive_command(pin.gpio@, number, true),
            )
            &&& pin.initial == PinState::Low ==> contains(
                text,
                drive_command(pin.gpio@, number, false),
            )
            &&& pin.initial == PinState::Floating ==> contains(
                text,
                pin.gpio@ + " ReleasePin "@ + dec(number) + "\n"@,
            )
        }),
{
    reveal_strlit("");
    assert(""@ + pins[i].gpio@ =~= pins[i].gpio@);
    lemma_pin_set(pins, pins.len() as int, i);
}

/// The command that declares a region non-secure.
pub open spec fn attribution_command(number: nat, base: nat, limit: nat) -> Seq<char> {
    "cpu SAURegionNumber "@ + (dec(number) + ("\ncpu SAURegionBaseAddress 0x"@ + (hex8(base) + (
    "\ncpu SAURegionLimitAddress 0x"@ + (hex8(limit) + "\n"@)))))
}

proof fn lemma_attributed(spans: Seq<Span>, end: int, i: int)
    requires
        0 <= i < end <= spans.len(),
    ensures
        contains(
            sau_text(spans, end),
            attribution_command(
                i as nat,
                spans[i].base as nat,
                ((spans[i].end - 1) as u64 | 1) as nat,
            ),
        ),
    decreases end,
{
    let limit = ((spans[i].end - 1) as u64 | 1) as nat;
    let piece = attribution_command(i as nat, spans[i].base as nat, limit);
    lemma_pieces_are_kept(piece);
    if i < end - 1 {
        lemma_attributed(spans, end - 1, i);
    } else {
        let before = sau_text(spans, end - 1);
        let (a, b) = ("cpu SAURegionNumber "@, dec(i as nat));
        let (c, d) = ("\ncpu SAURegionBaseAddress 0x"@, hex8(spans[i].base as nat));
        let (e, f) = ("\ncpu SAURegionLimitAddress 0x"@, hex8(limit));
        lemma_grouped(before + a + b + c + d + e, f, "\n"@);
        lemma_grouped(before + a + b + c + d, e, f + "\n"@);
        lemma_grouped(before + a + b + c, d, e + (f + "\n"@));
        lemma_grouped(before + a + b, c, d + (e + (f + "\n"@)));
        lemma_grouped(before + a, b, c + (d + (e + (f + "\n"@))));
        lemma_grouped(before, a, b + (c + (d + (e + (f + "\n"@)))));
        assert(sau_text(spans, end) == before + piece);
    }
}

/// Every non-secure span is declared, from its first address to its last, and
/// attribution is switched on; a board without secure regions declares none.
pub proof fn law_every_span_is_declared(layout: BoardLayout, i: int)
    requires
        0 <= i < layout.non_secure_spans().len(),
        layout.non_secure_spans()[i].end > 0,
        layout.non_secure_spans()[i].end % 2 == 0,
    ensures
        layout.board.security.secure_regions@.len() == 0 ==> security_text(layout).len() == 0,
        layout.board.security.secure_regions@.len() > 0 ==> contains(
            security_text(layout),
            attribution_command(
                i as nat,
                layout.non_secure_spans()[i].base as nat,
                (layout.non_secure_spans()[i].end - 1) as nat,
            ),
        ) && contains(security_text(layout), "cpu SAUControl 1\n"@),
{
    reveal_strlit("");
    let spans = layout.non_secure_spans();
    let last = (spans[i].end - 1) as u64;
    assert(last | 1 == last) by (bit_vector)
        requires
            last % 2 == 1,
    ;
    lemma_attributed(spans, spans.len() as int, i);
    lemma_pieces_are_kept(
        attribution_command(i as nat, spans[i].base as nat, (spans[i].end - 1) as nat),
    );
    lemma_pieces_are_kept("cpu SAUControl 1\n"@);
}

/// An address is mapped where flash or one of the RAM banks holds it, and
/// secured where one of the secure regions does; a range holds its first
/// address and those behind it, as many as its size.
pub proof fn law_which_addresses_are_held(layout: BoardLayout, address: int)
    requires
        layout.addresses_fit(),
    ensures
        layout.mapped(address) <==> {
            ||| layout.memory.flash_base <= address < layout.memory.flash_base
                + layout.memory.flash_size
            ||| exists|i: int|
                0 <= i < layout.memory.ram_regions@.len() && (
                #[trigger] layout.memory.ram_regions@[i]).base <= address
                    < layout.memory.ram_regions@[i].base + layout.memory.ram_regions@[i].size
        },
        layout.secured(address) <==> exists|k: int|
            0 <= k < layout.board.security.secure_regions@.len() && (
            #[trigger] layout.board.security.secure_regions@[k]).base <= address
                < layout.board.security.secure_regions@[k].base
                + layout.board.security.secure_regions@[k].size,
        layout.flash_apart() <==> forall|i: int|
            0 <= i < layout.memory.ram_regions@.len() ==> {
                let bank = #[trigger] layout.memory.ram_regions@[i];
                layout.memory.flash_base + layout.memory.flash_size <= bank.base || bank.base
                    + bank.size <= layout.memory.flash_base
            },
{
    let banks = layout.memory.ram_regions@;
    let regions = layout.board.security.secure_regions@;
    if layout.mapped(address) {
        let p = choose|p: int|
            0 <= p <= banks.len() && (#[trigger] layout.physical_span(p)).holds(address);
        if p > 0 {
            assert(banks[p - 1].base <= address < banks[p - 1].base + banks[p - 1].size);
        }
    }
    if layout.memory.flash_base <= address < layout.memory.flash_base + layout.memory.flash_size {
        assert(layout.physical_span(0).holds(address));
    }
    if exists|i: int|
        0 <= i < banks.len() && (#[trigger] banks[i]).base <= address < banks[i].base
            + banks[i].size {
        let i = choose|i: int|
            0 <= i < banks.len() && (#[trigger] banks[i]).base <= address < banks[i].base
                + banks[i].size;
        assert(layout.physical_span(i + 1).holds(address));
    }
    if layout.secured(address) {
        let k = choose|k: int|
            0 <= k < regions.len() && (#[trigger] span_of(regions[k])).holds(address);
        assert(regions[k].base <= address < regions[k].base + regions[k].size);
    }
    if exists|k: int|
        0 <= k < regions.len() && (#[trigger] regions[k]).base <= address < regions[k].base
            + regions[k].size {
        let k = choose|k: int|
            0 <= k < regions.len() && (#[trigger] regions[k]).base <= address < regions[k].base
                + regions[k].size;
        assert(span_of(regions[k]).holds(address));
    }
    assert forall|i: int| 0 <= i < banks.len() implies (apart(
        layout.physical_span(0),
        span_of(#[trigger] banks[i]),
    ) <==> layout.memory.flash_base + layout.memory.flash_size <= banks[i].base || banks[i].base
        + banks[i].size <= layout.memory.flash_base) by {}
}

} // verus!
