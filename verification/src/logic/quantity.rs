//! Units of measure and the kinds of quantity they measure.
//!
//! Quantities are kept in metric units; a quantity's kind decides which unit
//! shows it in each unit system and how its kind is stored.

use vstd::prelude::*;

verus! {

/// Names of counted quantities.
#[derive(Debug, Clone, Copy, PartialEq, Eq, Structural)]
pub enum CountName {
    Dash,
}

/// Units that quantities can be entered and shown in.
#[derive(Debug, Clone, Copy, PartialEq, Eq, Structural)]
pub enum Unit {
    Milliliter,
    FluidOunce,
    Gram,
    MassOunce,
    Dash,
}

/// Systems of units.
#[derive(Debug, Clone, Copy, PartialEq, Eq, Structural)]
pub enum UnitSystem {
    Metric,
    Imperial,
}

/// What a quantity measures.
#[derive(Debug, Clone, Copy, PartialEq, Eq, Structural)]
pub enum QuantityKind {
    Volume,
    Mass,
    Count(CountName),
}

/// The text shown for a unit.
pub open spec fn unit_label(unit: Unit) -> Seq<char> {
    match unit {
        Unit::Milliliter => "ml"@,
        Unit::FluidOunce => "fl oz"@,
        Unit::Gram => "g"@,
        Unit::MassOunce => "oz"@,
        Unit::Dash => "dash"@,
    }
}

/// The other unit system.
pub open spec fn swapped(system: UnitSystem) -> UnitSystem {
    match system {
        UnitSystem::Metric => UnitSystem::Imperial,
        UnitSystem::Imperial => UnitSystem::Metric,
    }
}

/// The unit that shows a quantity of `kind` in `system`.
pub open spec fn unit_for(kind: QuantityKind, system: UnitSystem) -> Unit {
    match kind {
        QuantityKind::Volume => match system {
            UnitSystem::Metric => Unit::Milliliter,
            UnitSystem::Imperial => Unit::FluidOunce,
        },
        QuantityKind::Mass => match system {
            UnitSystem::Metric => Unit::Gram,
            UnitSystem::Imperial => Unit::MassOunce,
        },
        QuantityKind::Count(CountName::Dash) => Unit::Dash,
    }
}

/// The kind of quantity that `unit` measures.
pub open spec fn kind_of(unit: Unit) -> QuantityKind {
    match unit {
        Unit::Milliliter | Unit::FluidOunce => QuantityKind::Volume,
        Unit::Gram | Unit::MassOunce => QuantityKind::Mass,
        Unit::Dash => QuantityKind::Count(CountName::Dash),
    }
}

/// The unit systems in which `unit` is the unit shown for its kind.
pub open spec fn belongs_to(unit: Unit, system: UnitSystem) -> bool {
    match unit {
        Unit::Milliliter | Unit::Gram => system == UnitSystem::Metric,
        Unit::FluidOunce | Unit::MassOunce => system == UnitSystem::Imperial,
        Unit::Dash => true,
    }
}

/// The code under which a kind is stored.
pub open spec fn kind_code(kind: QuantityKind) -> i32 {
    match kind {
        QuantityKind::Volume => 0,
        QuantityKind::Mass => 1,
        QuantityKind::Count(CountName::Dash) => 2,
    }
}

impl CountName {
    /// The name shown for the count.
    pub fn name(self) -> (r: String)
        ensures
            r@ == "Dash"@,
    {
        match self {
            Self::Dash => String::from_str("Dash"),
        }
    }
}

impl Unit {
    /// Every unit, in the order offered for selection.
    pub fn get_units() -> (r: Vec<Unit>)
        ensures
            r@ == seq![Unit::Milliliter, Unit::FluidOunce, Unit::Gram, Unit::MassOunce, Unit::Dash],
    {
        let r = vec![Unit::Milliliter, Unit::FluidOunce, Unit::Gram, Unit::MassOunce, Unit::Dash];
        proof {
            assert(r@ =~= seq![Unit::Milliliter, Unit::FluidOunce, Unit::Gram, Unit::MassOunce, Unit::Dash]);
        }
        r
    }

    /// The text shown for the unit.
    pub fn label(&self) -> (r: &'static str)
        ensures
            r@ == unit_label(*self),
    {
        match self {
            Self::Milliliter => "ml",
            Self::FluidOunce => "fl oz",
            Self::Gram => "g",
            Self::MassOunce => "oz",
            Self::Dash => "dash",
        }
    }
}

impl UnitSystem {
    /// Switches to the other unit system.
    pub fn swap(&mut self)
        ensures
            *final(self) == swapped(*old(self)),
    {
        *self = match self {
            Self::Metric => Self::Imperial,
            Self::Imperial => Self::Metric,
        };
    }

    /// The text shown for the unit system.
    pub fn label(&self) -> (r: &'static str)
        ensures
            r@ == match *self {
                UnitSystem::Metric => "Metric (ml)"@,
                UnitSystem::Imperial => "Imperial (Oz)"@,
            },
    {
        match self {
            Self::Metric => "Metric (ml)",
            Self::Imperial => "Imperial (Oz)",
        }
    }
}

impl QuantityKind {
    /// The kind of quantity that a unit measures.
    pub fn of_unit(unit: Unit) -> (r: QuantityKind)
        ensures
            r == kind_of(unit),
    {
        match unit {
            Unit::Milliliter | Unit::FluidOunce => QuantityKind::Volume,
            Unit::Gram | Unit::MassOunce => QuantityKind::Mass,
            Unit::Dash => QuantityKind::Count(CountName::Dash),
        }
    }

    /// The unit that shows this kind in `unit_system`.
    pub fn unit(&self, unit_system: UnitSystem) -> (r: Unit)
        ensures
            r == unit_for(*self, unit_system),
    {
        match unit_system {
            UnitSystem::Metric => match self {
                Self::Volume => Unit::Milliliter,
                Self::Mass => Unit::Gram,
                Self::Count(CountName::Dash) => Unit::Dash,
            },
            UnitSystem::Imperial => match self {
                Self::Volume => Unit::FluidOunce,
                Self::Mass => Unit::MassOunce,
                Self::Count(CountName::Dash) => Unit::Dash,
            },
        }
    }

    /// The name of the metric unit that a quantity of this kind is shown in.
    pub fn metric_name(&self) -> (r: String)
        ensures
            r@ == match *self {
                QuantityKind::Volume => "ml"@,
                QuantityKind::Mass => "grams"@,
                QuantityKind::Count(_) => "Dash"@,
            },
    {
        match self {
            Self::Volume => String::from_str("ml"),
            Self::Mass => String::from_str("grams"),
            Self::Count(name) => name.name(),
        }
    }

    /// The name of the imperial unit that a quantity of this kind is shown in.
    pub fn imperial_name(&self) -> (r: String)
        ensures
            r@ == match *self {
                QuantityKind::Volume => "oz"@,
                QuantityKind::Mass => "oz"@,
                QuantityKind::Count(_) => "Dash"@,
            },
    {
        match self {
            Self::Volume => String::from_str("oz"),
            Self::Mass => String::from_str("oz"),
            Self::Count(name) => name.name(),
        }
    }

    /// The code under which this kind is stored.
    pub fn db_code(&self) -> (r: i32)
        ensures
            r == kind_code(*self),
    {
        match self {
            Self::Volume => 0,
            Self::Mass => 1,
            Self::Count(CountName::Dash) => 2,
        }
    }

    /// The kind stored under `code`, or `None` for a code that no kind uses.
    pub fn from_db_code(code: i32) -> (r: Option<QuantityKind>)
        ensures
            match r {
                Some(kind) => kind_code(kind) == code,
                None => forall|kind: QuantityKind| kind_code(kind) != code,
            },
    {
        match code {
            0 => Some(Self::Volume),
            1 => Some(Self::Mass),
            2 => Some(Self::Count(CountName::Dash)),
            _ => {
                proof {
                    assert forall|kind: QuantityKind| kind_code(kind) != code by {
                        match kind {
                            QuantityKind::Volume => {},
                            QuantityKind::Mass => {},
                            QuantityKind::Count(CountName::Dash) => {},
                        }
                    }
                }
                None
            },
        }
    }
}

/// A stored kind reads back as the kind that was stored.
pub proof fn law_kind_code_round_trip(kind: QuantityKind, read: QuantityKind)
    requires
        kind_code(read) == kind_code(kind),
    ensures
        read == kind,
{
    match kind {
        QuantityKind::Volume => {},
        QuantityKind::Mass => {},
        QuantityKind::Count(CountName::Dash) => {},
    }
    match read {
        QuantityKind::Volume => {},
        QuantityKind::Mass => {},
        QuantityKind::Count(CountName::Dash) => {},
    }
}

/// A quantity entered in a unit is shown in that same unit in every system the unit belongs to.
pub proof fn law_entered_unit_is_shown(unit: Unit, system: UnitSystem)
    requires
        belongs_to(unit, system),
    ensures
        unit_for(kind_of(unit), system) == unit,
{
}

/// Swapping the unit system twice returns to where it started.
pub proof fn law_swap_twice(system: UnitSystem)
    ensures
        swapped(swapped(system)) == system,
{
}

} // verus!
