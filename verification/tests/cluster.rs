use raft_cluster::cluster::{ClusterConfig, ClusterMembers, ClusterState, ConfigError};
use raft_cluster::node::NodeId;

const A: NodeId = 1;
const B: NodeId = 2;
const C: NodeId = 3;
const D: NodeId = 4;
const E: NodeId = 5;

fn set(ids: &[NodeId]) -> ClusterMembers {
    ids.iter().copied().collect()
}

fn bootstrap() -> ClusterConfig {
    ClusterConfig::new(set(&[A, B, C]))
}

fn catching_up() -> ClusterConfig {
    bootstrap().start_config_change(set(&[A, B, C, D, E])).unwrap()
}

fn values(table: &[(NodeId, u64)]) -> impl Fn(&NodeId) -> u64 + '_ {
    move |node: &NodeId| {
        for (id, value) in table {
            if id == node {
                return *value;
            }
        }
        panic!("no value for node {}", node);
    }
}

#[test]
fn state_predicates() {
    assert!(ClusterState::Stable.is_stable());
    assert!(!ClusterState::CatchUp.is_stable());
    assert!(!ClusterState::Joint.is_stable());
    assert!(ClusterState::Joint.is_joint());
    assert!(!ClusterState::Stable.is_joint());
    assert!(!ClusterState::CatchUp.is_joint());
}

#[test]
fn bootstrap_is_stable_with_no_old_members() {
    let config = bootstrap();
    assert_eq!(config.state(), ClusterState::Stable);
    assert_eq!(config.new_members(), &set(&[A, B, C]));
    assert!(config.old_members().is_empty());
    assert_eq!(config.primary_members(), &set(&[A, B, C]));
    assert_eq!(config.members(), set(&[A, B, C]));
}

#[test]
fn bootstrap_consensus_is_the_middle_value() {
    let config = bootstrap();
    let table = [(A, 5u64), (B, 7), (C, 3)];
    assert_eq!(config.consensus_value(values(&table)), 5);
    assert_eq!(config.full_consensus_value(values(&table)), 5);
}

#[test]
fn change_request_enters_catch_up() {
    let before = bootstrap();
    let config = before.start_config_change(set(&[A, B, C, D, E])).unwrap();
    assert_eq!(config.state(), ClusterState::CatchUp);
    assert_eq!(config.new_members(), &set(&[A, B, C, D, E]));
    assert_eq!(config.old_members(), &set(&[A, B, C]));
    // The configuration that the request was made on is untouched.
    assert_eq!(before, bootstrap());
}

#[test]
fn catch_up_consensus_reads_old_members_only() {
    let config = catching_up();
    let low = [(A, 5u64), (B, 7), (C, 3), (D, 0), (E, 0)];
    let high = [(A, 5u64), (B, 7), (C, 3), (D, 100), (E, 100)];
    assert_eq!(config.consensus_value(values(&low)), 5);
    assert_eq!(config.consensus_value(values(&high)), 5);
    // Nobody but an old member is asked at all.
    let old_only = [(A, 5u64), (B, 7), (C, 3)];
    assert_eq!(config.consensus_value(values(&old_only)), 5);
}

#[test]
fn catch_up_gate_weighs_both_member_sets() {
    let config = catching_up();
    // New members far behind: their majority value is 3, the old one 5.
    let behind = [(A, 5u64), (B, 7), (C, 3), (D, 0), (E, 0)];
    assert_eq!(config.consensus_value(values(&behind)), 5);
    assert_eq!(config.full_consensus_value(values(&behind)), 3);
    // New members ahead: their majority value is 7, the old one 5.
    let ahead = [(A, 5u64), (B, 7), (C, 3), (D, 9), (E, 8)];
    assert_eq!(config.consensus_value(values(&ahead)), 5);
    assert_eq!(config.full_consensus_value(values(&ahead)), 5);
}

#[test]
fn catch_up_advances_to_joint() {
    let before = catching_up();
    let config = before.to_next_state();
    assert_eq!(config.state(), ClusterState::Joint);
    assert_eq!(config.new_members(), &set(&[A, B, C, D, E]));
    assert_eq!(config.old_members(), &set(&[A, B, C]));
    assert_eq!(before.state(), ClusterState::CatchUp);
    let table = [(A, 5u64), (B, 7), (C, 3), (D, 9), (E, 1)];
    assert_eq!(config.consensus_value(values(&table)), 5);
    assert_eq!(config.full_consensus_value(values(&table)), 5);
}

#[test]
fn joint_consensus_is_the_lesser_majority_value() {
    let config = catching_up().to_next_state();
    // New majority value 3, old majority value 5.
    let new_lower = [(A, 5u64), (B, 7), (C, 3), (D, 0), (E, 0)];
    assert_eq!(config.consensus_value(values(&new_lower)), 3);
    assert_eq!(config.full_consensus_value(values(&new_lower)), 3);
    // New majority value 8, old majority value 2.
    let old_lower = [(A, 2u64), (B, 1), (C, 8), (D, 9), (E, 9)];
    assert_eq!(config.consensus_value(values(&old_lower)), 2);
    assert_eq!(config.full_consensus_value(values(&old_lower)), 2);
}

#[test]
fn joint_consensus_is_not_the_majority_of_the_union() {
    // Old {A, B, C} is replaced by the disjoint {D, E}.
    let config = ClusterConfig::with_state(set(&[D, E]), set(&[A, B, C]), ClusterState::Joint);
    let table = [(A, 9u64), (B, 9), (C, 9), (D, 1), (E, 2)];
    // Three of the five known nodes hold 9, yet no new member does.
    assert_eq!(config.consensus_value(values(&table)), 1);
}

#[test]
fn joint_advances_to_stable() {
    let config = catching_up().to_next_state().to_next_state();
    assert_eq!(config.state(), ClusterState::Stable);
    assert_eq!(config.new_members(), &set(&[A, B, C, D, E]));
    assert!(config.old_members().is_empty());
    assert_eq!(config, ClusterConfig::new(set(&[A, B, C, D, E])));
}

#[test]
fn stable_stays_stable() {
    let config = bootstrap().to_next_state();
    assert_eq!(config, bootstrap());
}

#[test]
fn change_request_is_refused_while_catching_up() {
    let config = catching_up();
    assert_eq!(config.start_config_change(set(&[A, B])), Err(ConfigError::ChangeInProgress));
}

#[test]
fn change_request_is_refused_under_joint_agreement() {
    let config = catching_up().to_next_state();
    assert_eq!(config.start_config_change(set(&[A, B])), Err(ConfigError::ChangeInProgress));
}

#[test]
fn change_request_is_accepted_again_after_the_change() {
    let config = catching_up().to_next_state().to_next_state();
    let next = config.start_config_change(set(&[D, E])).unwrap();
    assert_eq!(next.state(), ClusterState::CatchUp);
    assert_eq!(next.new_members(), &set(&[D, E]));
    assert_eq!(next.old_members(), &set(&[A, B, C, D, E]));
}

#[test]
fn members_is_the_union_in_every_phase() {
    let stable = bootstrap();
    assert_eq!(stable.members(), set(&[A, B, C]));
    let catch_up = stable.start_config_change(set(&[C, D, E])).unwrap();
    assert_eq!(catch_up.members(), set(&[A, B, C, D, E]));
    let joint = catch_up.to_next_state();
    assert_eq!(joint.members(), set(&[A, B, C, D, E]));
    let done = joint.to_next_state();
    assert_eq!(done.members(), set(&[C, D, E]));
}

#[test]
fn known_nodes_are_the_members() {
    let config = bootstrap().start_config_change(set(&[C, D])).unwrap();
    assert!(config.is_known_node(&A));
    assert!(config.is_known_node(&C));
    assert!(config.is_known_node(&D));
    assert!(!config.is_known_node(&E));
    let done = config.to_next_state().to_next_state();
    assert!(!done.is_known_node(&A));
    assert!(done.is_known_node(&D));
}

#[test]
fn primary_members_are_the_old_members_during_a_change() {
    let stable = bootstrap();
    assert_eq!(stable.primary_members(), &set(&[A, B, C]));
    let catch_up = stable.start_config_change(set(&[D, E])).unwrap();
    assert_eq!(catch_up.primary_members(), &set(&[A, B, C]));
    let joint = catch_up.to_next_state();
    assert_eq!(joint.primary_members(), &set(&[A, B, C]));
    let done = joint.to_next_state();
    assert_eq!(done.primary_members(), &set(&[D, E]));
}

#[test]
fn with_state_keeps_what_it_is_given() {
    let config = ClusterConfig::with_state(set(&[D]), set(&[A, B]), ClusterState::Joint);
    assert_eq!(config.state(), ClusterState::Joint);
    assert_eq!(config.new_members(), &set(&[D]));
    assert_eq!(config.old_members(), &set(&[A, B]));
    assert_eq!(config.to_next_state(), ClusterConfig::new(set(&[D])));
}

#[test]
fn clone_is_equal() {
    let config = catching_up();
    assert_eq!(config.clone(), config);
}

#[test]
fn change_cycle_does_not_depend_on_the_values_read() {
    let first = catching_up();
    let table = [(A, 1u64), (B, 2), (C, 3), (D, 4), (E, 5)];
    assert_eq!(first.consensus_value(values(&table)), 2);
    assert_eq!(first.full_consensus_value(values(&table)), 2);
    let second = first.to_next_state();
    assert_eq!(second.consensus_value(values(&table)), 2);
    let third = second.to_next_state();
    assert_eq!(third, ClusterConfig::new(set(&[A, B, C, D, E])));
    assert_eq!(third.consensus_value(values(&table)), 3);
}
