use bartend::common::quantity::{CountName, Unit};
use bartend::logic::quantity::{QuantityKind, UnitSystem};

#[test]
fn units_are_offered_in_order() {
    assert_eq!(
        Unit::get_units(),
        vec![Unit::Milliliter, Unit::FluidOunce, Unit::Gram, Unit::MassOunce, Unit::Dash]
    );
}

#[test]
fn unit_labels() {
    let labels: Vec<&str> = Unit::get_units().iter().map(|u| u.label()).collect();

    assert_eq!(labels, vec!["ml", "fl oz", "g", "oz", "dash"]);
}

#[test]
fn swapping_twice_restores_the_system() {
    let mut system = UnitSystem::Metric;

    system.swap();
    assert_eq!(system, UnitSystem::Imperial);
    system.swap();

    assert_eq!(system, UnitSystem::Metric);
}

#[test]
fn unit_system_labels() {
    assert_eq!(UnitSystem::Metric.label(), "Metric (ml)");
    assert_eq!(UnitSystem::Imperial.label(), "Imperial (Oz)");
}

#[test]
fn each_kind_is_shown_in_the_unit_of_the_system() {
    assert_eq!(QuantityKind::Volume.unit(UnitSystem::Metric), Unit::Milliliter);
    assert_eq!(QuantityKind::Volume.unit(UnitSystem::Imperial), Unit::FluidOunce);
    assert_eq!(QuantityKind::Mass.unit(UnitSystem::Metric), Unit::Gram);
    assert_eq!(QuantityKind::Mass.unit(UnitSystem::Imperial), Unit::MassOunce);
    assert_eq!(QuantityKind::Count(CountName::Dash).unit(UnitSystem::Imperial), Unit::Dash);
}

#[test]
fn entered_unit_is_the_unit_shown() {
    for unit in Unit::get_units() {
        let system = match unit {
            Unit::FluidOunce | Unit::MassOunce => UnitSystem::Imperial,
            _ => UnitSystem::Metric,
        };
        assert_eq!(QuantityKind::of_unit(unit).unit(system), unit);
    }
}

#[test]
fn stored_kind_codes_round_trip() {
    let kinds = [QuantityKind::Volume, QuantityKind::Mass, QuantityKind::Count(CountName::Dash)];
    let codes: Vec<i32> = kinds.iter().map(|k| k.db_code()).collect();

    assert_eq!(codes, vec![0, 1, 2]);
    for kind in kinds {
        assert_eq!(QuantityKind::from_db_code(kind.db_code()), Some(kind));
    }
    assert_eq!(QuantityKind::from_db_code(3), None);
    assert_eq!(QuantityKind::from_db_code(-1), None);
}

#[test]
fn unit_names_of_each_kind() {
    assert_eq!(QuantityKind::Volume.metric_name(), "ml");
    assert_eq!(QuantityKind::Mass.metric_name(), "grams");
    assert_eq!(QuantityKind::Volume.imperial_name(), "oz");
    assert_eq!(QuantityKind::Mass.imperial_name(), "oz");
    assert_eq!(QuantityKind::Count(CountName::Dash).metric_name(), "Dash");
    assert_eq!(QuantityKind::Count(CountName::Dash).imperial_name(), "Dash");
    assert_eq!(CountName::Dash.name(), "Dash");
}
