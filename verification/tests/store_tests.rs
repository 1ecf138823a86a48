use yarw_core::profile::{FFlagValue, Profile, ProfileError, ProfileManager, Renderer, RobloxType};

fn sample_profile(name: &str) -> Profile {
    Profile {
        name: name.to_string(),
        roblox: RobloxType::RobloxPlayer,
        renderer: Renderer::Vulkan,
        fflags: vec![("FastStart".to_string(), FFlagValue::Boolean(true))],
    }
}

#[test]
fn create_then_get() {
    let mut store = ProfileManager::default();
    let p = sample_profile("Main");
    let id = store.create(p.clone()).unwrap();
    assert_eq!(store.get(id), Some(&p));
    assert!(store.contains(id));
    assert!(store.is_well_formed());
}

#[test]
fn two_creates_distinct_ids() {
    let mut store = ProfileManager::default();
    let p = sample_profile("Twin");
    let id1 = store.create(p.clone()).unwrap();
    let id2 = store.create(p.clone()).unwrap();
    assert_ne!(id1, id2);
    assert_eq!(store.get(id1), Some(&p));
    assert_eq!(store.get(id2), Some(&p));
    assert_eq!(store.profiles.len(), 2);
}

#[test]
fn delete_fresh_id_without_save() {
    let mut store = ProfileManager::default();
    let id = store.create(sample_profile("Gone")).unwrap();
    assert!(store.contains(id));
    store.delete(id).unwrap();
    assert!(!store.contains(id));
    assert_eq!(store.get(id), None);
    assert_eq!(store.profiles.len(), 0);
}

#[test]
fn delete_missing_fails_and_keeps_size() {
    let mut store = ProfileManager::default();
    let id = store.create(sample_profile("Kept")).unwrap();
    let missing = id.wrapping_add(1);
    let r = store.delete(missing);
    assert!(matches!(r, Err(ProfileError::ProfileNotExist)));
    assert_eq!(store.profiles.len(), 1);
    assert_eq!(store.get(id), Some(&sample_profile("Kept")));
}

#[test]
fn update_missing_fails_and_inserts_nothing() {
    let mut store = ProfileManager::default();
    let r = store.update(7, sample_profile("Ghost"));
    assert!(matches!(r, Err(ProfileError::ProfileNotExist)));
    assert_eq!(store.profiles.len(), 0);
    assert!(!store.contains(7));
}

#[test]
fn update_replaces_whole_record() {
    let mut store = ProfileManager::default();
    let id = store.create(sample_profile("Before")).unwrap();
    let after = Profile {
        name: "After".to_string(),
        roblox: RobloxType::RobloxStudio,
        renderer: Renderer::OpenGL,
        fflags: vec![],
    };
    store.update(id, after.clone()).unwrap();
    assert_eq!(store.get(id), Some(&after));
    assert_eq!(store.profiles.len(), 1);
}

#[test]
fn list_gives_canonical_identifier_strings() {
    let mut store = ProfileManager::default();
    let id = store.create(sample_profile("Solo")).unwrap();
    let listed = store.list();
    assert_eq!(listed.len(), 1);
    assert_eq!(listed[0], yarw_core::ident::id_to_string(id));
}

#[test]
fn get_flag_finds_overrides_by_name() {
    let p = Profile {
        name: "Flags".to_string(),
        roblox: RobloxType::RobloxPlayer,
        renderer: Renderer::D3D11,
        fflags: vec![
            ("FastStart".to_string(), FFlagValue::Boolean(true)),
            ("Depth".to_string(), FFlagValue::Number(3)),
        ],
    };
    assert_eq!(
        p.get_flag(&"FastStart".to_string()),
        Some(&FFlagValue::Boolean(true))
    );
    assert_eq!(p.get_flag(&"Depth".to_string()), Some(&FFlagValue::Number(3)));
    assert_eq!(p.get_flag(&"Absent".to_string()), None);
}

#[test]
fn default_profile_is_player_with_default_backend() {
    let p = Profile::default();
    assert_eq!(p.name, "");
    assert!(matches!(p.roblox, RobloxType::RobloxPlayer));
    assert!(matches!(p.renderer, Renderer::D3D11));
    assert!(p.fflags.is_empty());
    assert!(matches!(RobloxType::default(), RobloxType::RobloxPlayer));
    assert!(matches!(Renderer::default(), Renderer::D3D11));
}
