use gallerina::thumb::{
    codec_for, decimal_text, ffmpeg_args, ffmpeg_filter, ffmpeg_outcome, source_edge,
    thumb_geometry, Codec, Geometry, ThumbError, FALLBACK_EDGE,
};
use gallerina::{MAX_SQL_TX_SIZE, THUMB_QUALITY, THUMB_SIZE};

#[test]
fn the_limits_are_fixed() {
    assert_eq!(THUMB_SIZE, 512);
    assert_eq!(THUMB_QUALITY, 80);
    assert_eq!(MAX_SQL_TX_SIZE, 1024);
    assert_eq!(FALLBACK_EDGE, 16);
}

#[test]
fn videos_go_to_the_video_generator() {
    assert_eq!(codec_for("/data/clip.mp4"), Codec::Ffmpeg);
    assert_eq!(codec_for("/data/CLIP.MP4"), Codec::Ffmpeg);
    assert_eq!(codec_for("/data/photo.jpg"), Codec::Magick);
    assert_eq!(codec_for("/data/mp4"), Codec::Magick);
    assert_eq!(codec_for("/data/noext"), Codec::Magick);
    assert_eq!(codec_for("/data/clip.mp4.jpg"), Codec::Magick);
}

#[test]
fn numbers_are_written_in_decimal() {
    assert_eq!(decimal_text(0), "0");
    assert_eq!(decimal_text(7), "7");
    assert_eq!(decimal_text(10), "10");
    assert_eq!(decimal_text(512), "512");
    assert_eq!(decimal_text(9009), "9009");
    assert_eq!(decimal_text(65535), "65535");
}

#[test]
fn the_filter_scales_the_longer_edge() {
    assert_eq!(
        ffmpeg_filter(512),
        "thumbnail,scale='if(gt(iw,ih),512,trunc(oh*a/2)*2)':'if(gt(iw,ih),trunc(ow/a/2)*2,512)'"
    );
    assert_eq!(
        ffmpeg_filter(64),
        "thumbnail,scale='if(gt(iw,ih),64,trunc(oh*a/2)*2)':'if(gt(iw,ih),trunc(ow/a/2)*2,64)'"
    );
}

#[test]
fn the_video_generator_is_asked_for_one_frame_on_its_output() {
    assert_eq!(
        ffmpeg_args("/data/clip.mp4"),
        vec![
            "-v",
            "error",
            "-i",
            "/data/clip.mp4",
            "-vf",
            "thumbnail,scale='if(gt(iw,ih),512,trunc(oh*a/2)*2)':'if(gt(iw,ih),trunc(ow/a/2)*2,512)'",
            "-frames:v",
            "1",
            "-f",
            "image2pipe",
            "-",
        ]
    );
}

#[test]
fn a_failed_run_of_the_video_generator_gives_its_complaint() {
    match ffmpeg_outcome(true, vec![1, 2, 3], "warn".to_string()) {
        Ok(bytes) => assert_eq!(bytes, vec![1, 2, 3]),
        Err(e) => panic!("unexpected {:?}", e),
    }
    match ffmpeg_outcome(false, vec![1, 2, 3], "no such file".to_string()) {
        Err(ThumbError::Ffmpeg(text)) => assert_eq!(text, "no such file"),
        other => panic!("unexpected {:?}", other),
    }
}

#[test]
fn an_edge_of_zero_gives_way_to_the_fallback() {
    assert_eq!(source_edge(0), 16);
    assert_eq!(source_edge(1), 1);
    assert_eq!(source_edge(800), 800);
}

#[test]
fn an_upright_picture_is_not_turned() {
    assert_eq!(
        thumb_geometry(512, 384, 1),
        Geometry { auto_orient: false, width: 512, height: 384 }
    );
}

#[test]
fn a_picture_on_its_side_swaps_its_edges() {
    for o in [5, 6, 7, 8] {
        assert_eq!(
            thumb_geometry(512, 384, o),
            Geometry { auto_orient: true, width: 384, height: 512 }
        );
    }
    for o in [0, 2, 3, 4, 9, 100] {
        assert_eq!(
            thumb_geometry(512, 384, o),
            Geometry { auto_orient: true, width: 512, height: 384 }
        );
    }
}

#[test]
fn a_size_without_area_gives_way_to_the_fallback_square() {
    assert_eq!(thumb_geometry(0, 384, 1), Geometry { auto_orient: false, width: 16, height: 16 });
    assert_eq!(thumb_geometry(512, 0, 6), Geometry { auto_orient: true, width: 16, height: 16 });
    assert_eq!(thumb_geometry(0, 0, 3), Geometry { auto_orient: true, width: 16, height: 16 });
}
