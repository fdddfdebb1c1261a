use dicontext::multi_registration::CanonicalNameTable;
use dicontext::multi_registration::MultiregistrationKey;
use dicontext::multi_registration::MultiregistrationTrait;
use dicontext::multi_registration::get_canonical_name;
use dicontext::multi_registration::try_get_canonical_name;

struct Sensor;

impl MultiregistrationTrait for Sensor {
    fn multiregistration_key() -> String {
        "Sensor".to_string()
    }
}

#[test]
fn multiregistration_key_comes_from_the_family() {
    let key = MultiregistrationKey::new::<Sensor>();
    assert_eq!(key.key, "Sensor".to_string());
}

#[test]
fn canonical_name_of_declared_family() {
    let mut table = CanonicalNameTable::new();
    table.declare(MultiregistrationKey::new::<Sensor>().key);
    table.declare("Actuator".to_string());
    assert_eq!(
        try_get_canonical_name(&table, &"Sensor".to_string()),
        Some("Sensor".to_string())
    );
    assert_eq!(get_canonical_name(&table, &"Actuator".to_string()), "Actuator".to_string());
}

#[test]
fn unknown_family_name_is_reported() {
    let mut table = CanonicalNameTable::new();
    table.declare("Sensor".to_string());
    assert_eq!(try_get_canonical_name(&table, &"Sonsor".to_string()), None);
    assert_eq!(try_get_canonical_name(&CanonicalNameTable::new(), &"Sensor".to_string()), None);
}
