use anemoi::ids::{ModelId, RequestId};
use anemoi::types::{ColocationConstraints, ResidencyState, RuntimeMemorySnapshot};

#[test]
fn runtime_memory_pressure_is_none_without_total() {
    let memory = RuntimeMemorySnapshot {
        vram_total_mb: None,
        vram_used_mb: Some(12_000),
        ram_total_mb: None,
        ram_used_mb: None,
    };
    assert_eq!(memory.pressure_percent(), None);
}

#[test]
fn runtime_memory_pressure_calculates_percent() {
    let memory = RuntimeMemorySnapshot {
        vram_total_mb: Some(24_000),
        vram_used_mb: Some(18_000),
        ram_total_mb: None,
        ram_used_mb: None,
    };
    assert_eq!(memory.pressure_percent(), Some(75));
}

#[test]
fn runtime_memory_pressure_is_none_for_zero_total() {
    let memory = RuntimeMemorySnapshot {
        vram_total_mb: Some(0),
        vram_used_mb: Some(10),
        ram_total_mb: None,
        ram_used_mb: None,
    };
    assert_eq!(memory.pressure_percent(), None);
}

#[test]
fn runtime_memory_pressure_rounds_down() {
    let memory = RuntimeMemorySnapshot {
        vram_total_mb: Some(3),
        vram_used_mb: Some(2),
        ram_total_mb: None,
        ram_used_mb: None,
    };
    assert_eq!(memory.pressure_percent(), Some(66));
}

#[test]
fn residency_reuse_bonus_ranks_hot_above_warm_above_cold() {
    assert_eq!(ResidencyState::HotGpu.reuse_bonus(), 60);
    assert_eq!(ResidencyState::Serving.reuse_bonus(), 60);
    assert_eq!(ResidencyState::WarmCpu.reuse_bonus(), 35);
    assert_eq!(ResidencyState::Loading.reuse_bonus(), 15);
    assert_eq!(ResidencyState::Draining.reuse_bonus(), -10);
    assert_eq!(ResidencyState::Cold.reuse_bonus(), 0);
    assert!(!ResidencyState::Cold.is_resident());
    assert!(!ResidencyState::Failed.is_resident());
    assert!(ResidencyState::Partial.is_resident());
}

#[test]
fn colocation_constraints_need_a_shared_loadout() {
    let m = |s: &str| ModelId(s.to_string());
    let constraints = ColocationConstraints {
        loadouts: vec![vec![m("a"), m("b")], vec![m("c")]],
    };
    assert!(constraints.can_colocate(&m("a"), &m("b")));
    assert!(constraints.can_colocate(&m("b"), &m("a")));
    assert!(!constraints.can_colocate(&m("a"), &m("c")));
    assert!(constraints.can_colocate(&m("c"), &m("c")));
    let empty = ColocationConstraints { loadouts: vec![] };
    assert!(!empty.can_colocate(&m("a"), &m("a")));
}

#[test]
fn request_id_is_hyphenated_random_uuid_text() {
    let drawn = uuid::Uuid::new_v4();
    let id = RequestId::new(drawn.as_u128());
    assert_eq!(id.0, drawn.to_string());
    let hex = format!("{:032x}", drawn.as_u128());
    assert_eq!(id.0, format!("{}-{}-{}-{}-{}", &hex[0..8], &hex[8..12], &hex[12..16], &hex[16..20], &hex[20..32]));
    let chars: Vec<char> = id.0.chars().collect();
    assert_eq!(chars.len(), 36);
    for (i, c) in chars.iter().enumerate() {
        if i == 8 || i == 13 || i == 18 || i == 23 {
            assert_eq!(*c, '-');
        } else {
            assert!(c.is_ascii_digit() || ('a'..='f').contains(c));
        }
    }
    assert_eq!(chars[14], '4');
    assert!(matches!(chars[19], '8' | '9' | 'a' | 'b'));
    assert_ne!(RequestId::new(uuid::Uuid::new_v4().as_u128()).0, id.0);
}

#[test]
fn request_id_text_follows_the_bits() {
    assert_eq!(RequestId::new(0).0, "00000000-0000-0000-0000-000000000000");
    assert_eq!(RequestId::new(0x0123456789abcdef0011223344556677).0, "01234567-89ab-cdef-0011-223344556677");
    assert_eq!(RequestId::new(u128::MAX).0, "ffffffff-ffff-ffff-ffff-ffffffffffff");
}
