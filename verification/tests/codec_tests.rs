use yarw_core::profile::{FFlagValue, Profile, ProfileError, ProfileManager, Renderer, RobloxType};

fn rich_profile() -> Profile {
    Profile {
        name: "Ein Ausflug — άλφα ✓".to_string(),
        roblox: RobloxType::RobloxStudio,
        renderer: Renderer::OpenGL,
        fflags: vec![
            ("Label".to_string(), FFlagValue::Text("önö-text".to_string())),
            ("Depth".to_string(), FFlagValue::Number(-987654321)),
            ("Fast".to_string(), FFlagValue::Boolean(false)),
        ],
    }
}

#[test]
fn empty_store_round_trip() {
    let store = ProfileManager::default();
    let bytes = store.serialize();
    let back = ProfileManager::deserialize(&bytes).unwrap();
    assert_eq!(back.profiles.len(), 0);
}

#[test]
fn create_save_reload_preserves_profile() {
    let mut store = ProfileManager::default();
    let p = Profile {
        name: "Main".to_string(),
        roblox: RobloxType::RobloxPlayer,
        renderer: Renderer::D3D11,
        fflags: vec![("FastStart".to_string(), FFlagValue::Boolean(true))],
    };
    let id = store.create(p.clone()).unwrap();
    let bytes = store.serialize();
    let reloaded = ProfileManager::from_snapshot(Some(bytes)).unwrap();
    let got = reloaded.get(id).expect("profile must survive the round trip");
    assert_eq!(got.name, "Main");
    assert!(matches!(got.roblox, RobloxType::RobloxPlayer));
    assert_eq!(got.fflags.len(), 1);
    assert_eq!(got.fflags[0].0, "FastStart");
    assert!(matches!(got.fflags[0].1, FFlagValue::Boolean(true)));
    assert_eq!(got, &p);
}

#[test]
fn round_trip_keeps_every_flag_kind_and_tag() {
    let mut store = ProfileManager::default();
    let id1 = store.create(rich_profile()).unwrap();
    let id2 = store.create(Profile::default()).unwrap();
    let bytes = store.serialize();
    let back = ProfileManager::deserialize(&bytes).unwrap();
    assert_eq!(back.get(id1), Some(&rich_profile()));
    assert_eq!(back.get(id2), Some(&Profile::default()));
    assert_eq!(back.profiles.len(), 2);
}

#[test]
fn load_without_prior_snapshot_is_empty_store() {
    let store = ProfileManager::from_snapshot(None).unwrap();
    assert_eq!(store.profiles.len(), 0);
}

#[test]
fn truncated_snapshot_is_codec_error() {
    let r = ProfileManager::deserialize(&[1, 2, 3]);
    assert!(matches!(r, Err(ProfileError::CodecError(_))));
}

#[test]
fn trailing_bytes_are_rejected() {
    let store = ProfileManager::default();
    let mut bytes = store.serialize();
    bytes.push(0);
    let r = ProfileManager::deserialize(&bytes);
    assert!(matches!(r, Err(ProfileError::CodecError(_))));
}

#[test]
fn unknown_variant_tag_is_rejected() {
    let mut store = ProfileManager::default();
    store
        .create(Profile { name: String::new(), ..Profile::default() })
        .unwrap();
    let mut bytes = store.serialize();
    // count (8) + identifier (16) + empty-name length (8), then the
    // variant tag byte.
    assert_eq!(bytes.len(), 8 + 16 + 8 + 1 + 1 + 8);
    bytes[32] = 9;
    let r = ProfileManager::deserialize(&bytes);
    assert!(matches!(r, Err(ProfileError::CodecError(_))));
}

#[test]
fn surrogate_scalar_in_name_is_rejected() {
    let mut store = ProfileManager::default();
    store
        .create(Profile { name: "a".to_string(), ..Profile::default() })
        .unwrap();
    let mut bytes = store.serialize();
    // count (8) + identifier (16) + name length (8), then the single
    // character's four little-endian bytes.
    bytes[32] = 0x00;
    bytes[33] = 0xD8;
    bytes[34] = 0x00;
    bytes[35] = 0x00;
    let r = ProfileManager::deserialize(&bytes);
    assert!(matches!(r, Err(ProfileError::CodecError(_))));
}

#[test]
fn repeated_identifier_is_rejected() {
    let store = ProfileManager {
        profiles: vec![(5, Profile::default()), (5, rich_profile())],
    };
    let bytes = store.serialize();
    let r = ProfileManager::deserialize(&bytes);
    assert!(matches!(r, Err(ProfileError::CodecError(_))));
}

#[test]
fn bad_boolean_payload_is_rejected() {
    let mut store = ProfileManager::default();
    store
        .create(Profile {
            name: String::new(),
            roblox: RobloxType::RobloxPlayer,
            renderer: Renderer::D3D11,
            fflags: vec![(String::new(), FFlagValue::Boolean(false))],
        })
        .unwrap();
    let mut bytes = store.serialize();
    // count + identifier + empty name + two tag bytes + flag count +
    // empty flag name + flag tag, then the boolean payload byte.
    let payload = bytes.len() - 1;
    assert_eq!(bytes[payload], 0);
    bytes[payload] = 7;
    let r = ProfileManager::deserialize(&bytes);
    assert!(matches!(r, Err(ProfileError::CodecError(_))));
}

#[test]
fn snapshot_bytes_are_exactly_as_specified() {
    // One profile: identifier 0x02_01, empty name, studio variant,
    // Vulkan backend, no flags.
    let store = ProfileManager {
        profiles: vec![(
            0x0201,
            Profile {
                name: String::new(),
                roblox: RobloxType::RobloxStudio,
                renderer: Renderer::Vulkan,
                fflags: vec![],
            },
        )],
    };
    let bytes = store.serialize();
    let mut expected = vec![1u8, 0, 0, 0, 0, 0, 0, 0];
    let mut id_bytes = vec![0x01u8, 0x02];
    id_bytes.resize(16, 0);
    expected.extend_from_slice(&id_bytes);
    expected.extend_from_slice(&[0, 0, 0, 0, 0, 0, 0, 0]);
    expected.push(1);
    expected.push(1);
    expected.extend_from_slice(&[0, 0, 0, 0, 0, 0, 0, 0]);
    assert_eq!(bytes, expected);
}
