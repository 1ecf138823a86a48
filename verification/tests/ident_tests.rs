use yarw_core::ident::id_to_string;

#[test]
fn canonical_form_of_zero() {
    assert_eq!(id_to_string(0), "00000000-0000-0000-0000-000000000000");
}

#[test]
fn canonical_form_is_grouped_lowercase_hex() {
    let bits: u128 = 0x0123_4567_89ab_cdef_0123_4567_89ab_cdef;
    assert_eq!(id_to_string(bits), "01234567-89ab-cdef-0123-456789abcdef");
}

#[test]
fn canonical_form_matches_the_uuid_rendering() {
    let bits: u128 = 0xfedc_ba98_7654_3210_0f1e_2d3c_4b5a_6978;
    assert_eq!(id_to_string(bits), uuid::Uuid::from_u128(bits).to_string());
}

#[test]
fn distinct_identifiers_have_distinct_forms() {
    assert_ne!(id_to_string(1), id_to_string(1 << 64));
    assert_ne!(id_to_string(u128::MAX), id_to_string(u128::MAX - 1));
}

#[test]
fn resolver_paths_append_fixed_subdirectories() {
    assert_eq!(yarw_core::dirs::profiles_db_path("/tmp/cfg"), "/tmp/cfg/profiles");
    assert_eq!(yarw_core::dirs::config_db_path("/tmp/cfg"), "/tmp/cfg/config");
    assert_eq!(yarw_core::dirs::config_dir_or_default(None), "");
    assert_eq!(
        yarw_core::dirs::config_dir_or_default(Some("/somewhere".to_string())),
        "/somewhere"
    );
}

#[test]
fn fs_error_carries_its_message() {
    let e = yarw_core::fs::FsError::CreateDir("permission denied".to_string());
    assert_eq!(e.message(), "permission denied");
}
