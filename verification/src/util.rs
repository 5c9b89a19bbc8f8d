//! Serial number arithmetic and identifiers of associations.

use vstd::prelude::*;

use crate::shared::AssociationId;

verus! {

/// Whether the 32-bit serial number `a` comes before `b`: going up from `a`, wrapping at the end
/// of the number space, `b` is met within less than half of the space.
pub open spec fn serial32_before(a: u32, b: u32) -> bool {
    0 < (b - a) % 0x1_0000_0000 < 0x8000_0000
}

/// Whether the 16-bit serial number `a` comes before `b`.
pub open spec fn serial16_before(a: u16, b: u16) -> bool {
    0 < (b - a) % 0x1_0000 < 0x8000
}

/// Whether `i1` is before `i2` in serial number order.
pub fn sna32lt(i1: u32, i2: u32) -> (r: bool)
    ensures
        r == serial32_before(i1, i2),
{
    (i1 < i2 && i2 - i1 < 0x8000_0000) || (i1 > i2 && i1 - i2 > 0x8000_0000)
}

/// Whether `i1` is `i2` or before it in serial number order.
pub fn sna32lte(i1: u32, i2: u32) -> (r: bool)
    ensures
        r == (i1 == i2 || serial32_before(i1, i2)),
{
    i1 == i2 || sna32lt(i1, i2)
}

/// Whether `i1` is after `i2`: neither `i2` itself nor before it in serial number order.
pub fn sna32gt(i1: u32, i2: u32) -> (r: bool)
    ensures
        r == (i1 != i2 && !serial32_before(i1, i2)),
{
    (i1 < i2 && i2 - i1 >= 0x8000_0000) || (i1 > i2 && i1 - i2 <= 0x8000_0000)
}

/// Whether `i1` is before `i2` in serial number order.
pub fn sna16lt(i1: u16, i2: u16) -> (r: bool)
    ensures
        r == serial16_before(i1, i2),
{
    (i1 < i2 && i2 - i1 < 0x8000) || (i1 > i2 && i1 - i2 > 0x8000)
}

/// Whether `i1` is `i2` or before it in serial number order.
pub fn sna16lte(i1: u16, i2: u16) -> (r: bool)
    ensures
        r == (i1 == i2 || serial16_before(i1, i2)),
{
    i1 == i2 || sna16lt(i1, i2)
}

/// Whether `i1` is after `i2`: neither `i2` itself nor before it in serial number order.
pub fn sna16gt(i1: u16, i2: u16) -> (r: bool)
    ensures
        r == (i1 != i2 && !serial16_before(i1, i2)),
{
    (i1 < i2 && i2 - i1 >= 0x8000) || (i1 > i2 && i1 - i2 <= 0x8000)
}

/// A number drawn by `rand::random`. Nothing is known of it.
#[verifier::external_body]
pub(crate) fn random_u32() -> (r: u32) {
    rand::random::<u32>()
}

/// Generates the identifiers by which an endpoint names its associations.
pub trait AssociationIdGenerator: Send {
    /// The identifiers that the generator may yield: any of them, unless it says otherwise.
    open spec fn yields(&self) -> Set<AssociationId> {
        Set::full()
    }

    /// Generates a new identifier. Identifiers may come again.
    fn generate_aid(&mut self) -> (r: AssociationId)
        ensures
            old(self).yields().contains(r),
            final(self).yields() == old(self).yields(),
    ;
}

/// Generates identifiers at random.
#[derive(Debug, Clone, Copy)]
pub struct RandomAssociationIdGenerator {}

impl Default for RandomAssociationIdGenerator {
    fn default() -> (r: Self)
        ensures
            r == (RandomAssociationIdGenerator {  }),
    {
        RandomAssociationIdGenerator::new()
    }
}

impl RandomAssociationIdGenerator {
    /// A generator.
    pub fn new() -> (r: Self)
        ensures
            r == (RandomAssociationIdGenerator {  }),
    {
        RandomAssociationIdGenerator {  }
    }
}

impl AssociationIdGenerator for RandomAssociationIdGenerator {
    open spec fn yields(&self) -> Set<AssociationId> {
        Set::full()
    }

    fn generate_aid(&mut self) -> (r: AssociationId) {
        random_u32()
    }
}

/// A generator of identifiers, whatever its kind.
pub struct AidGenerator {
    pub generator: Box<dyn AssociationIdGenerator>,
}

/// A generator of identifiers with what has been drawn from it.
pub struct AidSource {
    generator: AidGenerator,
    drawn: Ghost<Seq<AssociationId>>,
}

impl AidSource {
    /// The generator, as it is after what has been drawn.
    pub closed spec fn generator(&self) -> AidGenerator {
        self.generator
    }

    /// What has been drawn, in order.
    pub closed spec fn drawn(&self) -> Seq<AssociationId> {
        self.drawn@
    }

    /// The identifiers that the generator may yield.
    pub open spec fn yields(&self) -> Set<AssociationId> {
        self.generator().generator.yields()
    }

    /// A generator from which nothing has been drawn here.
    pub fn new(generator: AidGenerator) -> (r: Self)
        ensures
            r.generator() == generator,
            r.drawn() == Seq::<AssociationId>::empty(),
    {
        AidSource { generator, drawn: Ghost(Seq::empty()) }
    }

    /// The generator, as it is after what has been drawn.
    pub fn as_generator(&self) -> (r: &AidGenerator)
        ensures
            *r == self.generator(),
    {
        &self.generator
    }

    /// Draws an identifier.
    pub fn draw(&mut self) -> (r: AssociationId)
        ensures
            drew(*old(self), seq![r], *final(self)),
    {
        let r: AssociationId = self.generator.generator.generate_aid();
        self.drawn = Ghost(self.drawn@.push(r));
        assert(self.drawn() =~= old(self).drawn() + seq![r]);
        r
    }
}

/// Whether `after` is the generator `before` once those identifiers were drawn from it, each of them
/// one that it may yield.
pub open spec fn drew(
    before: AidSource,
    draws: Seq<AssociationId>,
    after: AidSource,
) -> bool {
    &&& after.drawn() == before.drawn() + draws
    &&& after.yields() == before.yields()
    &&& forall|i: int|
        0 <= i < draws.len() ==> before.yields().contains(#[trigger] draws[i])
}

/// Nothing drawn leaves a generator as it is.
pub proof fn lemma_drew_nothing(g: AidSource)
    ensures
        drew(g, Seq::empty(), g),
{
    assert(g.drawn() + Seq::<AssociationId>::empty() =~= g.drawn());
}

/// Draws that follow each other are draws.
pub proof fn lemma_drew_more(
    before: AidSource,
    draws: Seq<AssociationId>,
    mid: AidSource,
    more: Seq<AssociationId>,
    after: AidSource,
)
    requires
        drew(before, draws, mid),
        drew(mid, more, after),
    ensures
        drew(before, draws + more, after),
{
    assert(before.drawn() + (draws + more) =~= (before.drawn() + draws) + more);
}

/// Sets up generators of identifiers.
pub trait CreateAidGenerator: Send + Sync {
    /// Whether this sets up that generator: it may be any, unless something else is said.
    open spec fn creates(&self, g: AidGenerator) -> bool {
        true
    }

    /// Sets up a generator.
    fn create(&self) -> (r: AidGenerator)
        ensures
            self.creates(r),
    ;
}

/// Sets up generators that draw at random.
pub struct CreateRandomAidGenerator {}

impl CreateAidGenerator for CreateRandomAidGenerator {
    /// A generator that may yield every identifier.
    open spec fn creates(&self, g: AidGenerator) -> bool {
        g.generator.yields() == Set::<AssociationId>::full()
    }

    fn create(&self) -> (r: AidGenerator)
        ensures
            r.generator.yields() == Set::<AssociationId>::full(),
    {
        AidGenerator { generator: Box::new(RandomAssociationIdGenerator::new()) }
    }
}

/// A way to set up generators of identifiers, whatever its kind.
pub struct AidGeneratorFactory {
    pub factory: Box<dyn CreateAidGenerator>,
}

/// Of two serial numbers at most one comes before the other, one of them does unless they are the
/// same or half of the numbers apart, and a shift of both does not matter.
pub proof fn law_serial_order(a: u32, b: u32, shift: u32)
    ensures
        !(serial32_before(a, b) && serial32_before(b, a)),
        a != b && (b - a) % 0x1_0000_0000 != 0x8000_0000 ==> serial32_before(a, b)
            || serial32_before(b, a),
        serial32_before(
            ((a + shift) % 0x1_0000_0000) as u32,
            ((b + shift) % 0x1_0000_0000) as u32,
        ) == serial32_before(a, b),
{
}

/// Of two stream sequence numbers at most one comes before the other, one of them does unless they
/// are the same or half of the numbers apart, and a shift of both does not matter.
pub proof fn law_serial_order16(a: u16, b: u16, shift: u16)
    ensures
        !(serial16_before(a, b) && serial16_before(b, a)),
        a != b && (b - a) % 0x1_0000 != 0x8000 ==> serial16_before(a, b) || serial16_before(b, a),
        serial16_before(((a + shift) % 0x1_0000) as u16, ((b + shift) % 0x1_0000) as u16)
            == serial16_before(a, b),
{
}

/// A serial number comes before just those that are less than half of the numbers ahead of it.
pub proof fn law_serial_distance(a: u32, k: int)
    requires
        0 <= k < 0x1_0000_0000,
    ensures
        serial32_before(a, ((a + k) % 0x1_0000_0000) as u32) == (0 < k < 0x8000_0000),
{
}

/// A 16-bit serial number comes before just those that are less than half of the numbers ahead of it.
pub proof fn law_serial_distance16(a: u16, k: int)
    requires
        0 <= k < 0x1_0000,
    ensures
        serial16_before(a, ((a + k) % 0x1_0000) as u16) == (0 < k < 0x8000),
{
}

/// What is drawn from a generator goes to the end of what was drawn before, and is what the generator
/// may yield; what it may yield stays the same.
pub proof fn law_draws_are_kept(
    before: AidSource,
    draws: Seq<AssociationId>,
    after: AidSource,
    i: int,
)
    requires
        drew(before, draws, after),
    ensures
        after.drawn().len() == before.drawn().len() + draws.len(),
        0 <= i < before.drawn().len() ==> after.drawn()[i] == before.drawn()[i],
        0 <= i < draws.len() ==> after.drawn()[before.drawn().len() + i] == draws[i]
            && before.yields().contains(draws[i]),
        after.yields() == before.yields(),
{
}

} // verus!
