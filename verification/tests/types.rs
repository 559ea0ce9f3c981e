use webscout::entity::normalize_entity;
use webscout::types::{
    merge_constraint_status, ConstraintVerdict, EntityBinding, Figure, Mission, MissionKind, Record,
};

#[test]
fn normalize_entity_strips_repo_owner_slugs() {
    // One slash, no spaces: a repo slug. The owner is not the project's
    // name, so the key is the repo alone and two spellings of one project
    // collide exactly instead of relying on a fuzzy merge.
    assert_eq!(normalize_entity("Dolibarr/dolibarr"), "dolibarr");
    assert_eq!(normalize_entity("bottelet/DaybydayCRM"), "daybydaycrm");
    assert_eq!(normalize_entity("oroinc/crm"), "crm");
}

#[test]
fn normalize_entity_keeps_slashes_that_are_not_slugs() {
    // Whitespace around the slash, or more than one slash: not a slug.
    assert_eq!(normalize_entity("ACME / Consulting"), "acme consulting");
    assert_eq!(normalize_entity("a/b/c"), "a b c");
}

#[test]
fn normalize_entity_strips_accents_and_prefix() {
    assert_eq!(normalize_entity("Ayuntamiento de Madrid"), "madrid");
    assert_eq!(normalize_entity("AYUNTAMIENTO DE MÁLAGA"), "malaga");
    assert_eq!(normalize_entity("Ajuntament d'Olot"), "olot");
    assert_eq!(normalize_entity("Ajuntament de Girona"), "girona");
    assert_eq!(normalize_entity("Concello de Vigo"), "vigo");
    assert_eq!(normalize_entity("Stadt München"), "munchen");
    assert_eq!(normalize_entity("Gemeinde Köln"), "koln");
    assert_eq!(normalize_entity("City of London"), "london");
    assert_eq!(normalize_entity("Commune di Roma"), "commune di roma"); // 'commune' not listed
    assert_eq!(normalize_entity("Comune di Roma"), "roma");
    assert_eq!(normalize_entity("Mairie de Paris"), "paris");
    assert_eq!(normalize_entity("Ville de Lyon"), "lyon");
    assert_eq!(normalize_entity("Udala Bilbao"), "bilbao");
    assert_eq!(normalize_entity("Udaletxea Donostia"), "donostia");
    assert_eq!(normalize_entity("  Barcelona  "), "barcelona");
    assert_eq!(normalize_entity("Añó"), "ano");
}

#[test]
fn normalize_entity_strips_bare_institutional_prefixes() {
    // Observed live: keys arrived without the "de" article joining the
    // institutional prefix to the place name.
    assert_eq!(
        normalize_entity("Ayuntamiento San Pedro del Pinatar"),
        "san pedro del pinatar"
    );
    assert_eq!(normalize_entity("Ajuntament Barcelona"), "barcelona");
    assert_eq!(normalize_entity("Municipio Alcala"), "alcala");
}

#[test]
fn normalize_entity_strips_trailing_region_parenthetical() {
    assert_eq!(
        normalize_entity("San Pedro del Pinatar (Murcia)"),
        "san pedro del pinatar"
    );
    assert_eq!(
        normalize_entity("Ayuntamiento de Alcalá (Madrid)"),
        "alcala"
    );
}

#[test]
fn normalize_entity_collapses_punctuation() {
    assert_eq!(normalize_entity("foo, bar - baz"), "foo bar baz");
    assert_eq!(normalize_entity("A & B"), "a b");
}

#[test]
fn normalize_entity_institutional_parenthetical() {
    // Basque heading + Spanish gloss reduces to the target municipality.
    assert_eq!(
        normalize_entity("Bilboko Udala (Ayuntamiento de Bilbao)"),
        "bilbao"
    );
    assert_eq!(
        normalize_entity("Donostiako Udala (Ayuntamiento de San Sebastián)"),
        "san sebastian"
    );
    assert_eq!(
        normalize_entity("Ourensala (Concello de Ourense)"),
        "ourense"
    );
}

#[test]
fn normalize_entity_bare_region_parenthetical_still_strips() {
    // A parenthetical that is NOT an institutional gloss is dropped, not
    // used as the name.
    assert_eq!(normalize_entity("San Pedro (Murcia)"), "san pedro");
}

#[test]
fn normalize_entity_strips_trailing_basque_udala() {
    assert_eq!(normalize_entity("BILBAO UDALA"), "bilbao");
    assert_eq!(normalize_entity("Getxo Udaletxea"), "getxo");
    // Non-institutional word that happens to end similarly is untouched.
    assert_eq!(normalize_entity("Sudalar"), "sudalar");
}

#[test]
fn normalize_entity_accentless_name_unchanged() {
    assert_eq!(normalize_entity("Barcelona"), "barcelona");
    assert_eq!(normalize_entity("Madrid"), "madrid");
}

#[test]
fn constraint_verdict_round_trips_through_its_labels() {
    for (label, v) in [
        ("supports", ConstraintVerdict::Supports),
        ("contradicts", ConstraintVerdict::Contradicts),
        ("not_addressed", ConstraintVerdict::NotAddressed),
        ("ambiguous", ConstraintVerdict::Ambiguous),
        ("mixed", ConstraintVerdict::Mixed),
    ] {
        assert_eq!(ConstraintVerdict::from_choice(label), v);
        assert_eq!(v.as_str(), label);
    }
}

/// A missing, empty or unrecognised answer reads as `not_addressed` —
/// never as support. A failed guard is never an open door.
#[test]
fn unknown_constraint_choice_is_not_addressed() {
    for label in ["", "   ", "yes", "SUPPORTS", "unchecked"] {
        assert_eq!(
            ConstraintVerdict::from_choice(label),
            ConstraintVerdict::NotAddressed,
            "{label:?}"
        );
    }
    assert!(ConstraintVerdict::Supports.is_satisfied());
    for v in [
        ConstraintVerdict::Contradicts,
        ConstraintVerdict::NotAddressed,
        ConstraintVerdict::Ambiguous,
        ConstraintVerdict::Mixed,
        ConstraintVerdict::Unchecked,
    ] {
        assert!(!v.is_satisfied(), "{v:?}");
    }
    // The default must be the un-verified one.
    assert_eq!(ConstraintVerdict::default(), ConstraintVerdict::Unchecked);
}

#[test]
fn entity_binding_labels_and_unknown_is_unresolved() {
    for (label, b) in [
        ("same", EntityBinding::Same),
        ("related", EntityBinding::Related),
        ("different", EntityBinding::Different),
        ("unresolved", EntityBinding::Unresolved),
    ] {
        assert_eq!(EntityBinding::from_choice(label), b);
        assert_eq!(b.as_str(), label);
    }
    assert_eq!(EntityBinding::from_choice("?"), EntityBinding::Unresolved);
    assert_eq!(EntityBinding::default(), EntityBinding::Unresolved);
    assert!(EntityBinding::Unresolved.is_unresolved());
    assert!(!EntityBinding::Related.is_unresolved());
}

/// Merging two views of one entity: the page that resolved the
/// organisation wins, and `related` is not laundered into `same` by an
/// unresolved second opinion.
#[test]
fn entity_binding_merge_keeps_the_more_informative_verdict() {
    assert_eq!(
        EntityBinding::Unresolved.merge(EntityBinding::Same),
        EntityBinding::Same
    );
    assert_eq!(
        EntityBinding::Same.merge(EntityBinding::Unresolved),
        EntityBinding::Same
    );
    assert_eq!(
        EntityBinding::Related.merge(EntityBinding::Unresolved),
        EntityBinding::Related
    );
    assert_eq!(
        EntityBinding::Related.merge(EntityBinding::Same),
        EntityBinding::Same
    );
}

#[test]
fn merge_constraint_status_takes_support_from_either_page() {
    let a = [ConstraintVerdict::NotAddressed, ConstraintVerdict::Mixed];
    let b = [ConstraintVerdict::Supports, ConstraintVerdict::Ambiguous];
    assert_eq!(
        merge_constraint_status(&a, &b),
        vec![ConstraintVerdict::Supports, ConstraintVerdict::Mixed]
    );
    // Unchecked defers to whatever the other page found.
    assert_eq!(
        merge_constraint_status(&[ConstraintVerdict::Unchecked], &[ConstraintVerdict::Mixed]),
        vec![ConstraintVerdict::Mixed]
    );
    // Differing lengths keep the longer vector's tail.
    assert_eq!(
        merge_constraint_status(&[], &[ConstraintVerdict::Supports]),
        vec![ConstraintVerdict::Supports]
    );
    assert_eq!(
        merge_constraint_status(&[ConstraintVerdict::Ambiguous], &[]),
        vec![ConstraintVerdict::Ambiguous]
    );
}

#[test]
fn pick_entity_field_prefers_known_names() {
    let fields: Vec<String> = ["email", "name", "website"]
        .iter()
        .map(|s| s.to_string())
        .collect();
    assert_eq!(Mission::pick_entity_field(&fields), "name");
}

#[test]
fn pick_entity_field_falls_back_to_first() {
    let fields: Vec<String> = ["correo", "id"].iter().map(|s| s.to_string()).collect();
    assert_eq!(Mission::pick_entity_field(&fields), "correo");
}

#[test]
fn needs_identity_field_detects_missing_identity() {
    let dims: Vec<String> = ["pricing", "target_market", "hosting_model"]
        .iter()
        .map(|s| s.to_string())
        .collect();
    assert!(Mission::needs_identity_field(&dims));
    let with_name: Vec<String> = ["pricing", "name"].iter().map(|s| s.to_string()).collect();
    assert!(!Mission::needs_identity_field(&with_name));
    // Regional entity names count as identity too.
    let ayto: Vec<String> = ["email", "ayuntamiento"]
        .iter()
        .map(|s| s.to_string())
        .collect();
    assert!(!Mission::needs_identity_field(&ayto));
}

#[test]
fn pick_entity_field_empty_returns_name() {
    assert_eq!(Mission::pick_entity_field(&[]), "name");
}

#[test]
fn pick_entity_field_ayuntamiento() {
    let fields: Vec<String> = ["ayuntamiento", "email"]
        .iter()
        .map(|s| s.to_string())
        .collect();
    assert_eq!(Mission::pick_entity_field(&fields), "ayuntamiento");
}


#[test]
fn a_mission_stops_at_its_target_and_only_there() {
    let mut m = Mission { kind: MissionKind::Harvest, target_count: Some(3), ..Default::default() };
    assert!(m.is_harvest());
    assert!(!m.satisfied_by(2));
    assert!(m.satisfied_by(3));
    assert!(m.satisfied_by(4));
    m.target_count = None;
    assert!(!m.satisfied_by(usize::MAX), "without a target only exhaustion stops a harvest");
    m.kind = MissionKind::Answer;
    assert!(!m.is_harvest());
}

#[test]
fn a_record_is_complete_when_nothing_is_left_open() {
    let mission = Mission {
        fields: vec!["name".to_string(), "email".to_string()],
        constraints: vec!["uses Decidim".to_string()],
        ..Default::default()
    };
    let figure = || Figure { bits: 0, text: "0.00".to_string() };
    let mut r = Record {
        fields: vec![
            ("name".to_string(), "Bilbao".to_string()),
            ("email".to_string(), "info@bilbao.example".to_string()),
        ],
        source_url: "https://bilbao.example/".to_string(),
        source_title: None,
        grounding: figure(),
        provenance: Vec::new(),
        constraint_support: figure(),
        constraint_status: vec![ConstraintVerdict::Supports],
        entity_binding: EntityBinding::Same,
    };
    assert!(r.is_complete(&mission));
    r.constraint_status = Vec::new();
    assert!(r.is_complete(&mission), "no verdicts are nothing to check");
    r.constraint_status = vec![ConstraintVerdict::NotAddressed];
    assert!(!r.is_complete(&mission), "silence is no support");
    r.constraint_status = vec![ConstraintVerdict::Supports];
    r.entity_binding = EntityBinding::Related;
    assert!(!r.is_complete(&mission), "a relative is not the entity");
    r.entity_binding = EntityBinding::Unresolved;
    assert!(r.is_complete(&mission));
    r.fields[1].1 = " ".to_string();
    assert!(!r.is_complete(&mission), "a blank value was not found");
}

#[test]
fn one_prefix_does_not_change_an_entity() {
    for prefix in ["Ayuntamiento de ", "Concello de ", "Ajuntament d'", "Town of "] {
        assert_eq!(
            normalize_entity(&format!("{prefix}Alcala la Real")),
            normalize_entity("Alcala la Real"),
            "{prefix}"
        );
    }
    assert_eq!(normalize_entity("Alcala  --  la   Real"), "alcala la real");
}

#[test]
fn a_plain_name_is_its_own_key_in_lower_case() {
    for name in ["Madrid", "San Pedro 2 del Pinatar", "AYTO", "x"] {
        assert_eq!(normalize_entity(name), name.to_lowercase());
        assert_eq!(normalize_entity(&format!("Ayuntamiento de {name}")), name.to_lowercase());
    }
}
