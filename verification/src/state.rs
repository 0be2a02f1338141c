//! State machines that are driven from outside.
use vstd::prelude::*;

verus! {

/// A span of time.
#[derive(Debug, Clone, Copy, PartialEq, Eq)]
pub struct Duration {
    pub nanos: u128,
}

impl Duration {
    /// No time at all.
    pub fn zero() -> (zero: Duration)
        ensures
            zero.nanos == 0,
    {
        Duration { nanos: 0 }
    }

    /// The sum, or the longest span where it would be longer than that.
    pub open spec fn plus_spec(self, other: Duration) -> Duration {
        if self.nanos + other.nanos <= u128::MAX {
            Duration { nanos: (self.nanos + other.nanos) as u128 }
        } else {
            Duration { nanos: u128::MAX }
        }
    }

    pub fn plus(self, other: Duration) -> (sum: Duration)
        ensures
            sum == self.plus_spec(other),
    {
        if self.nanos <= u128::MAX - other.nanos {
            Duration { nanos: self.nanos + other.nanos }
        } else {
            Duration { nanos: u128::MAX }
        }
    }

    /// How many nanoseconds it is longer than another span, if it is. Of a
    /// number that does not fit, only the low part is kept.
    pub open spec fn nanos_since(self, other: Duration) -> u64 {
        if other.nanos <= self.nanos {
            ((self.nanos - other.nanos) % 0x1_0000_0000_0000_0000) as u64
        } else {
            0
        }
    }

    pub fn since(self, other: Duration) -> (nanos: u64)
        ensures
            nanos == self.nanos_since(other),
    {
        if other.nanos <= self.nanos {
            ((self.nanos - other.nanos) % 0x1_0000_0000_0000_0000) as u64
        } else {
            0
        }
    }
}

/// The type without values, for messages and effects that never occur.
#[derive(Debug, Clone, Copy, PartialEq, Eq)]
pub struct Never(pub std::convert::Infallible);

impl View for Never {
    type V = Never;

    open spec fn view(&self) -> Never {
        *self
    }
}

/// What a state machine asks for.
#[derive(Debug)]
pub enum Action<E, O = Never> {
    /// Nothing, until a message arrives or the time has passed.
    Pending(Option<Duration>),
    /// Perform an effect.
    Perform(E),
    /// Take an output.
    Output(O),
}

impl<E: View, O: View> View for Action<E, O> {
    type V = Action<E::V, O::V>;

    open spec fn view(&self) -> Action<E::V, O::V> {
        match *self {
            Action::Pending(tick_after) => Action::Pending(tick_after),
            Action::Perform(effect) => Action::Perform(effect@),
            Action::Output(output) => Action::Output(output@),
        }
    }
}

/// A state machine. Its view is its mathematical state; `proceed_spec` and
/// `receive_spec` say what becomes of that state.
pub trait State: View {
    type Effect: View;

    type Output: View;

    type Message: View;

    /// What every state keeps to.
    spec fn inv(&self) -> bool;

    spec fn proceed_spec(state: Self::V, since_start: Duration) -> (
        Self::V,
        Action<<Self::Effect as View>::V, <Self::Output as View>::V>,
    );

    spec fn receive_spec(state: Self::V, message: <Self::Message as View>::V) -> Self::V;

    /// Takes one step and says what is to be done next.
    fn proceed(&mut self, since_start: Duration) -> (action: Action<Self::Effect, Self::Output>)
        requires
            old(self).inv(),
        ensures
            final(self).inv(),
            (final(self)@, action@) == Self::proceed_spec(old(self)@, since_start),
    ;

    /// Takes a message.
    fn receive(&mut self, message: Self::Message)
        requires
            old(self).inv(),
        ensures
            final(self).inv(),
            final(self)@ == Self::receive_spec(old(self)@, message@),
    ;
}

/// A value that can be copied without changing what it stands for.
pub trait Duplicate: View + Sized {
    fn duplicate(&self) -> (copy: Self)
        ensures
            copy@ == self@,
    ;
}

impl Duplicate for () {
    fn duplicate(&self) -> (copy: Self) {
    }
}

/// The earlier of two points in time, where there are any.
pub open spec fn sooner_spec(a: Option<Duration>, b: Option<Duration>) -> Option<Duration> {
    match (a, b) {
        (None, _) => b,
        (_, None) => a,
        (Some(x), Some(y)) => if x.nanos <= y.nanos {
            a
        } else {
            b
        },
    }
}

/// The earlier of two points in time, where there are any.
pub fn sooner(a: Option<Duration>, b: Option<Duration>) -> (earliest: Option<Duration>)
    ensures
        earliest == sooner_spec(a, b),
{
    match (a, b) {
        (None, _) => b,
        (_, None) => a,
        (Some(x), Some(y)) => if x.nanos <= y.nanos {
            a
        } else {
            b
        },
    }
}

/// The earliest of some points in time, where there are any.
pub fn earliest(tick_afters: &[Option<Duration>]) -> (earliest: Option<Duration>)
    ensures
        earliest is None <==> forall|i: int|
            0 <= i < tick_afters@.len() ==> #[trigger] tick_afters@[i] is None,
        earliest matches Some(_) ==> tick_afters@.contains(earliest),
        earliest matches Some(first) ==> forall|i: int|
            0 <= i < tick_afters@.len() ==> (#[trigger] tick_afters@[i] matches Some(other)
                ==> first.nanos <= other.nanos),
{
    let mut earliest: Option<Duration> = None;
    let mut i: usize = 0;
    while i < tick_afters.len()
        invariant
            i <= tick_afters@.len(),
            earliest is None <==> forall|j: int|
                0 <= j < i ==> #[trigger] tick_afters@[j] is None,
            earliest matches Some(_) ==> tick_afters@.contains(earliest),
            earliest matches Some(first) ==> forall|j: int|
                0 <= j < i ==> (#[trigger] tick_afters@[j] matches Some(other) ==> first.nanos
                    <= other.nanos),
        decreases tick_afters@.len() - i,
    {
        let next = tick_afters[i];
        assert(tick_afters@.contains(next)) by {
            assert(tick_afters@[i as int] == next);
        }
        earliest = sooner(earliest, next);
        i += 1;
    }
    earliest
}

} // verus!
