use webarchive_downloader_rust::wayback_client::{
    ssh_retry_delay, SshDestinationError, SshFallback, WaybackClient,
};

#[test]
fn builds_without_ssh_fallback() {
    let client = WaybackClient::new(&Vec::new()).unwrap();

    assert!(client.fallbacks.is_empty());
    assert_eq!(client.active_route_label(), "direct route");
}

#[test]
fn builds_with_multiple_ssh_fallbacks() {
    let client = WaybackClient::new(&vec![
        "ubuntu@151.145.94.114".to_owned(),
        "ubuntu@203.0.113.10".to_owned(),
    ])
    .unwrap();

    assert!(!client.fallbacks.is_empty());
    assert_eq!(client.fallbacks.len(), 2);
}

#[test]
fn rejects_empty_ssh_destination() {
    assert!(WaybackClient::new(&vec![" ".to_owned()]).is_err());
}

#[test]
fn names_what_is_wrong_with_a_destination() {
    assert_eq!(SshFallback::new("  ").err(), Some(SshDestinationError::Empty));
    assert_eq!(SshFallback::new("a b").err(), Some(SshDestinationError::Whitespace));
    assert_eq!(SshFallback::new(" a@b ").unwrap().destination, "a@b");
}

#[test]
fn active_ssh_failure_temporarily_cools_fallback() {
    let mut client = WaybackClient::new(&vec!["ubuntu@151.145.94.114".to_owned()]).unwrap();
    client.route_started(0);

    assert!(client.is_using_ssh());
    assert_eq!(client.active_route_label(), "SSH tunnel ubuntu@151.145.94.114");
    let recovery = client.recover_from_active_ssh_failure(1000).unwrap();
    assert_eq!((recovery.failed, recovery.rest_seconds, recovery.next), (0, 60, None));
    assert!(!client.is_using_ssh());
    assert_eq!(client.activate_ssh(1000), None);
    assert!(client.fallbacks[0].retry_remaining_at(1000).is_some());
}

#[test]
fn failed_ssh_fallback_becomes_eligible_after_cooldown() {
    let mut fallback = SshFallback::new("ubuntu@151.145.94.114").unwrap();

    let delay = fallback.remember_failure(1000);
    assert_eq!(delay, 60);
    assert!(fallback.retry_remaining_at(1000).is_some());
    assert_eq!(fallback.retry_remaining_at(1000 + 60_000), None);
}

#[test]
fn ssh_retry_delay_is_exponential_and_capped() {
    assert_eq!(ssh_retry_delay(0), 60);
    assert_eq!(ssh_retry_delay(1), 120);
    assert_eq!(ssh_retry_delay(100), 3600);
}

#[test]
fn active_ssh_recovery_is_noop_for_direct_route() {
    let mut client = WaybackClient::new(&vec!["ubuntu@151.145.94.114".to_owned()]).unwrap();

    assert!(!client.is_using_ssh());
    assert!(client.recover_from_active_ssh_failure(0).is_none());
}

#[test]
fn fallbacks_are_tried_in_order() {
    let mut client =
        WaybackClient::new(&vec!["a@one".to_owned(), "a@two".to_owned()]).unwrap();
    assert_eq!(client.activate_ssh(0), Some(0));
    assert_eq!(client.route_failed(0, 0), (60, Some(1)));
    client.route_started(1);
    assert_eq!(client.active_route_label(), "SSH tunnel a@two");
}
