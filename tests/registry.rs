use auxmos::registry::{gas_name_from_path, GasIds, RegistryError};

fn table() -> GasIds {
    let mut g = GasIds::new();
    assert_eq!(g.register(1001, "o2".to_string()), 0);
    assert_eq!(g.register(1002, "n2".to_string()), 1);
    assert_eq!(g.register(1003, "n2o".to_string()), 2);
    g
}

#[test]
fn ids_are_dense_in_registration_order() {
    let g = table();
    assert_eq!(g.total_num_gases(), 3);
    assert_eq!(g.gas_id_from_type(1002), Ok(1));
    assert_eq!(g.gas_id_to_type(2), Ok(1003));
    assert_eq!(g.gas_id_from_type_name("n2o"), Ok(2));
    assert_eq!(g.gas_name(0).map(|s| s.as_str()), Ok("o2"));
}

#[test]
fn unknown_lookups_fail() {
    let g = table();
    assert_eq!(g.gas_id_from_type(5), Err(RegistryError::InvalidType(5)));
    assert_eq!(g.gas_id_to_type(3), Err(RegistryError::InvalidGasId(3)));
    assert_eq!(g.gas_id_from_type_name("plasma"), Err(RegistryError::InvalidName));
    assert_eq!(g.gas_name(9), Err(RegistryError::InvalidGasId(9)));
}

#[test]
fn later_registration_wins() {
    let mut g = table();
    assert_eq!(g.register(1001, "o2".to_string()), 3);
    assert_eq!(g.gas_id_from_type(1001), Ok(3));
    assert_eq!(g.gas_id_from_type_name("o2"), Ok(3));
    assert_eq!(g.gas_id_to_type(0), Ok(1001));
}

#[test]
fn empty_table() {
    let g = GasIds::new();
    assert_eq!(g.total_num_gases(), 0);
    assert_eq!(g.gas_id_from_type_name(""), Err(RegistryError::InvalidName));
}

#[test]
fn gas_names_drop_the_type_path_prefix() {
    assert_eq!(gas_name_from_path("/datum/gas/oxygen"), "oxygen");
    assert_eq!(gas_name_from_path("/datum/gas/"), "");
    assert_eq!(gas_name_from_path("/datum/gasoline"), "/datum/gasoline");
    assert_eq!(gas_name_from_path("/datum/gas"), "/datum/gas");
    assert_eq!(gas_name_from_path("plasma"), "plasma");
    assert_eq!(gas_name_from_path(""), "");
    assert_eq!(gas_name_from_path("/datum/gas/é"), "é");
    assert_eq!(gas_name_from_path("/datum/gaé/x"), "/datum/gaé/x");
}
