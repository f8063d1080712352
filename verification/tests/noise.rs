use webarchive_downloader_rust::noise::{
    is_archive_noise_reference, is_archive_noise_url_with_mimetype,
};

fn is_archive_noise_url(original: &str) -> bool {
    is_archive_noise_url_with_mimetype(original, "text/html")
}

#[test]
fn detects_archive_noise() {
    assert!(is_archive_noise_url(
        "http://smallrockets.com/forums/memberlist.php?first_char=a"
    ));
    assert!(is_archive_noise_url(
        "http://www.smallrockets.com:80/forums/groupcp.php"
    ));
    assert!(is_archive_noise_url(
        "http://www.smallrockets.com:80/forums/login.php"
    ));
    assert!(is_archive_noise_url(
        "http://www.smallrockets.com:80/forums/memberlist.php"
    ));
    assert!(is_archive_noise_url(
        "http://www.smallrockets.com:80/forums/posting.php"
    ));
    assert!(is_archive_noise_url(
        "http://www.smallrockets.com:80/forums/search.php"
    ));
    assert!(is_archive_noise_url(
        "http://www.smallrockets.com:80/forums/viewforum.php"
    ));
    assert!(is_archive_noise_url(
        "http://www.smallrockets.com:80/forums/viewtopic.php"
    ));
    assert!(is_archive_noise_url(
        "http://www.smallrockets.com:80/forums/viewforum.php?"
    ));
    assert!(is_archive_noise_url(
        "http://smallrockets.com/forums/viewtopic.php?sid=abcdef"
    ));
    assert!(is_archive_noise_url(
        "http://smallrockets.com/forums/cron.php?cron_type=tidy_cache"
    ));
    assert!(is_archive_noise_url_with_mimetype(
        "http://example.com/forums/cron.php?cron_type=tidy_cache&sid=abcdef",
        "image/gif"
    ));
    assert!(is_archive_noise_url(
        "http://smallrockets.com/forums/login.php?redirect=posting.php&mode=quote&p=21728"
    ));
    assert!(is_archive_noise_url(
        "http://smallrockets.com/forums/posting.php?mode=reply&t=1"
    ));
    assert!(is_archive_noise_url(
        "http://smallrockets.com/forums/viewforum.php?f=10&mark=topics"
    ));
    assert!(is_archive_noise_url(
        "http://smallrockets.com/forums/index.php?mark=forums"
    ));
    assert!(!is_archive_noise_url(
        "http://smallrockets.com/forums/viewtopic.php?t=10020&view=next"
    ));
    assert!(!is_archive_noise_url(
        "http://smallrockets.com/forums/viewtopic.php?t=1&sid=abcdef"
    ));
    assert!(!is_archive_noise_url(
        "http://smallrockets.com/forums/viewtopic.php?t=1&amp;sid=abcdef"
    ));
    assert!(!is_archive_noise_url(
        "http://smallrockets.com/forums/viewforum.php?f=1&sid=abcdef"
    ));
    assert!(!is_archive_noise_url(
        "http://smallrockets.com/forums/viewtopic.php?p=18411&amp"
    ));
    assert!(!is_archive_noise_url(
        "http://smallrockets.com/forums/viewtopic.php?t=1&highlight=crash"
    ));
    assert!(!is_archive_noise_url_with_mimetype(
        "http://example.com/forums/style.php?sid=abcdef&id=1&lang=en",
        "text/css"
    ));
    assert!(!is_archive_noise_url_with_mimetype(
        "http://example.com/assets/logo.png?sid=abcdef",
        "image/png"
    ));
    assert!(!is_archive_noise_reference(
        "http://example.com/assets/logo.png?sid=abcdef"
    ));
    assert!(is_archive_noise_url(
        "http://smallrockets.com/forums/profile.php?mode=viewprofile&u=2"
    ));
    assert!(is_archive_noise_url(
        "http://smallrockets.com/forums/search.php?search_id=active_topics"
    ));
    assert!(is_archive_noise_url(
        "http://smallrockets.com/basket.htm?action=add&skuid=ArtIsDeadPC1&ticket=0.123"
    ));
    assert!(is_archive_noise_url(
        "http://smallrockets.com/basket.htm?action=empty&ticket=0.123"
    ));
    assert!(is_archive_noise_url(
        "http://smallrockets.com/basket.htm?action=setcurrency&currencyid=2&ticket=0.123"
    ));
    assert!(is_archive_noise_url("http://smallrockets.com/basket.htm?"));
    assert!(is_archive_noise_url(
        "http://smallrockets.com/cgi-sys/defaultwebpage.cgi"
    ));
    assert!(is_archive_noise_url(
        "http://smallrockets.com/img-sys/powered_by_cpanel.png"
    ));
    assert!(is_archive_noise_url(
        "http://smallrockets.com/sys_cpanel/images/bottombody.jpg"
    ));
    assert!(is_archive_noise_url(
        "http://smallrockets.com/cgi-bin/resellerpurchase.cgi"
    ));
    assert!(is_archive_noise_url("http://smallrockets.com/welcome.png"));
    assert!(!is_archive_noise_url(
        "http://smallrockets.com/forums/viewtopic.php?t=1"
    ));
    assert!(!is_archive_noise_url(
        "http://smallrockets.com/bimages/ic_logo.gif"
    ));
}
