use rust_bomberman::map_config::MapConfig;
use rust_bomberman::validator::{MapSizeValidator, MapValidator};

#[test]
fn test_valid_map_sizes() {
    let validator = MapSizeValidator::new();
    let config = MapConfig { size: 7, ..MapConfig::default() };
    assert!(validator.validate(&config).is_ok());

    let config = MapConfig { size: 19, ..MapConfig::default() };
    assert!(validator.validate(&config).is_ok());

    let config = MapConfig { size: 11, ..MapConfig::default() };
    assert!(validator.validate(&config).is_ok());
}

#[test]
fn test_invalid_map_sizes_too_small() {
    let validator = MapSizeValidator::new();
    let config = MapConfig { size: 5, ..MapConfig::default() };
    assert!(validator.validate(&config).is_err());

    let config = MapConfig { size: 4, ..MapConfig::default() };
    assert!(validator.validate(&config).is_err());
}

#[test]
fn test_invalid_map_sizes_too_large() {
    let validator = MapSizeValidator::new();
    let config = MapConfig { size: 21, ..MapConfig::default() };
    assert!(validator.validate(&config).is_err());

    let config = MapConfig { size: 22, ..MapConfig::default() };
    assert!(validator.validate(&config).is_err());
}

#[test]
fn test_invalid_map_sizes_even_numbers() {
    let validator = MapSizeValidator::new();
    let config = MapConfig { size: 5, ..MapConfig::default() };

    assert!(validator.validate(&config).is_err());

    let config = MapConfig { size: 8, ..MapConfig::default() };
    assert!(validator.validate(&config).is_err());
}
