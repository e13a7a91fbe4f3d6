use silicon_music::cache::{
    cache_meta, cache_root_setting, cached_track_id, check_cover_parts,
    check_cover_url, cover_extension, download_file_name, download_key, is_valid_cover_filename,
    keep_download, query_is_ephemeral, sanitize_file_stem, sanitize_video_id, select_video_ids,
    sniff_audio_mime, unique_download_name, url_to_filename, watch_url, MIN_AUDIO_BYTES,
};

#[test]
fn video_ids_are_short_ascii_words() {
    assert!(sanitize_video_id("dQw4w9WgXcQ"));
    assert!(sanitize_video_id("a-b_c"));
    assert!(!sanitize_video_id(""));
    assert!(!sanitize_video_id("../etc/passwd"));
    assert!(!sanitize_video_id("abc def"));
    assert!(!sanitize_video_id("é"));
    assert!(sanitize_video_id(&"a".repeat(31)));
    assert!(!sanitize_video_id(&"a".repeat(32)));
}

#[test]
fn cache_file_names_map_back_to_ids() {
    assert_eq!(cached_track_id("dQw4w9WgXcQ.webm").as_deref(), Some("dQw4w9WgXcQ"));
    assert_eq!(cached_track_id("dQw4w9WgXcQ.part"), None);
    assert_eq!(cached_track_id("bad id.webm"), None);
}

#[test]
fn only_safe_ids_are_selected_for_deletion() {
    let ids = vec!["ok1".to_string(), "../x".to_string(), "ok2".to_string(), String::new()];
    assert_eq!(select_video_ids(ids), vec!["ok1".to_string(), "ok2".to_string()]);
}

#[test]
fn downloads_are_keyed_by_pool_and_id() {
    assert_eq!(watch_url("abc"), "https://www.youtube.com/watch?v=abc");
    assert_eq!(download_key("abc", true), "e:abc");
    assert_eq!(download_key("abc", false), "p:abc");
    assert!(keep_download(true, MIN_AUDIO_BYTES));
    assert!(!keep_download(true, MIN_AUDIO_BYTES - 1));
    assert!(!keep_download(false, 1 << 20));
}

#[test]
fn cache_meta_drops_blank_fields() {
    assert_eq!(
        cache_meta("bad id", Some("t".to_string()), None).err().as_deref(),
        Some("invalid videoId: bad id")
    );
    assert!(matches!(cache_meta("abc", Some("  ".to_string()), None), Ok(None)));
    assert!(matches!(cache_meta("abc", None, Some("a".to_string())), Ok(None)));
    let meta = cache_meta("abc", Some("Song".to_string()), Some(" ".to_string()))
        .unwrap()
        .unwrap();
    assert_eq!(meta.title.as_deref(), Some("Song"));
    assert_eq!(meta.artist, None);
    let meta = cache_meta("abc", Some("Song".to_string()), Some("Band".to_string()))
        .unwrap()
        .unwrap();
    assert_eq!(meta.artist.as_deref(), Some("Band"));
}

#[test]
fn cache_root_setting_is_trimmed_and_blank_means_default() {
    assert_eq!(cache_root_setting(Some("  D:\\Music  ")).as_deref(), Some("D:\\Music"));
    assert_eq!(cache_root_setting(Some("   ")), None);
    assert_eq!(cache_root_setting(None), None);
}

#[test]
fn ephemeral_flag_is_read_from_the_query() {
    assert!(query_is_ephemeral(Some("ephemeral=1")));
    assert!(query_is_ephemeral(Some("a=b&ephemeral=true")));
    assert!(!query_is_ephemeral(Some("ephemeral=0")));
    assert!(!query_is_ephemeral(Some("ephemeral")));
    assert!(!query_is_ephemeral(Some("xephemeral=1")));
    assert!(!query_is_ephemeral(None));
}

#[test]
fn cover_file_names_are_plain() {
    assert!(is_valid_cover_filename("0123abcd.jpg"));
    assert!(!is_valid_cover_filename(""));
    assert!(!is_valid_cover_filename("../secret"));
    assert!(!is_valid_cover_filename("a..b"));
    assert!(!is_valid_cover_filename("a/b.jpg"));
    assert!(!is_valid_cover_filename(&"a".repeat(65)));
    assert!(is_valid_cover_filename(&"a".repeat(64)));
}

#[test]
fn audio_type_is_sniffed_from_magic_bytes() {
    let mut mp4 = [0u8; 16];
    mp4[4..8].copy_from_slice(b"ftyp");
    assert_eq!(sniff_audio_mime(&mp4), "audio/mp4");
    let mut webm = [0u8; 16];
    webm[..4].copy_from_slice(&[0x1A, 0x45, 0xDF, 0xA3]);
    assert_eq!(sniff_audio_mime(&webm), "audio/webm");
    let mut mp3 = [0u8; 16];
    mp3[..3].copy_from_slice(b"ID3");
    assert_eq!(sniff_audio_mime(&mp3), "audio/mpeg");
    assert_eq!(sniff_audio_mime(&[0u8; 16]), "audio/webm");
}

#[test]
fn cover_names_hash_the_url_and_keep_the_extension() {
    assert_eq!(cover_extension("https://a/x.png?y"), "png");
    assert_eq!(cover_extension("https://a/x.webp"), "webp");
    assert_eq!(cover_extension("https://a/x"), "jpg");
    let a = url_to_filename("https://i.ytimg.com/vi/abc/hq.png");
    let b = url_to_filename("https://i.ytimg.com/vi/abc/hq.png");
    let c = url_to_filename("https://i.ytimg.com/vi/abd/hq.png");
    assert_eq!(a, b);
    assert_ne!(a, c);
    assert_eq!(a.len(), 16 + 4);
    assert!(a.ends_with(".png"));
    assert!(a[..16].chars().all(|ch| ch.is_ascii_hexdigit()));
    assert!(!a.contains("ytimg"));
    assert!(is_valid_cover_filename(&a));
}

#[test]
fn cover_urls_must_be_https_on_an_allowed_cdn() {
    assert_eq!(check_cover_url("https://i.ytimg.com/vi/x/hq.jpg"), Ok(()));
    assert_eq!(check_cover_url("https://is1-ssl.mzstatic.com/a.jpg"), Ok(()));
    assert_eq!(check_cover_url("https://lh3.googleusercontent.com/a"), Ok(()));
    assert_eq!(
        check_cover_url("http://i.ytimg.com/x.jpg"),
        Err("blocked scheme: http".to_string())
    );
    assert_eq!(
        check_cover_url("https://evilytimg.com/x.jpg"),
        Err("blocked cover host: evilytimg.com".to_string())
    );
    assert_eq!(
        check_cover_url("https://169.254.169.254/latest"),
        Err("blocked cover host: 169.254.169.254".to_string())
    );
    let e = check_cover_url("not a url").unwrap_err();
    assert!(e.starts_with("bad url: "), "{e}");
}

#[test]
fn cover_verdict_from_parsed_parts() {
    assert_eq!(
        check_cover_parts(Ok(("https".to_string(), Some("ggpht.com".to_string())))),
        Ok(())
    );
    assert_eq!(
        check_cover_parts(Ok(("https".to_string(), None))),
        Err("blocked cover host: ".to_string())
    );
    assert_eq!(
        check_cover_parts(Err("oops".to_string())),
        Err("bad url: oops".to_string())
    );
}

#[test]
fn download_names_are_safe_and_numbered() {
    assert_eq!(sanitize_file_stem("AC/DC: Back <in> Black?"), "AC_DC_ Back _in_ Black_");
    assert_eq!(sanitize_file_stem("  ..Title..  "), "Title");
    assert_eq!(sanitize_file_stem("..."), "cover");
    assert_eq!(sanitize_file_stem(""), "cover");
    assert_eq!(sanitize_file_stem(&"x".repeat(200)).chars().count(), 120);
    assert_eq!(sanitize_file_stem("x. ."), "x");
    assert_eq!(sanitize_file_stem(". hidden"), "hidden");
    let cut_on_dot = format!("{}. tail", "y".repeat(119));
    assert_eq!(sanitize_file_stem(&cut_on_dot), "y".repeat(119));
    assert_eq!(download_file_name("Song", "jpg", 1), "Song.jpg");
    assert_eq!(download_file_name("Song", "jpg", 2), "Song (2).jpg");
    assert_eq!(download_file_name("Song", "png", 13), "Song (13).png");
}

#[test]
fn a_taken_download_name_gets_the_next_free_number() {
    let none: Vec<String> = vec![];
    assert_eq!(unique_download_name("Song", "jpg", &none), "Song.jpg");
    let taken = vec!["Song.jpg".to_string(), "Song (2).jpg".to_string(), "Other.jpg".to_string()];
    assert_eq!(unique_download_name("Song", "jpg", &taken), "Song (3).jpg");
    let mut all: Vec<String> = (2..1000).map(|n| format!("Song ({n}).jpg")).collect();
    all.push("Song.jpg".to_string());
    assert_eq!(unique_download_name("Song", "jpg", &all), "Song (1000).jpg");
    all.retain(|n| n != "Song (999).jpg");
    assert_eq!(unique_download_name("Song", "jpg", &all), "Song (999).jpg");
    let only_plain = vec!["Song.jpg".to_string(), "Song (3).jpg".to_string()];
    assert_eq!(unique_download_name("Song", "jpg", &only_plain), "Song (2).jpg");
}
