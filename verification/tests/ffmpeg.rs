use beats::ffmpeg::{
    export_args, ffmpeg_video_encoder, missing_message, mp3_args, mp3_outcome, mp3_wav_path,
    status_message, video_wav_path, Background, ErrorTail, HARDWARE_ENCODER,
};

#[test]
fn mp3_command_line() {
    assert_eq!(
        mp3_args("o.mp3.tmp_export.wav", "o.mp3"),
        vec!["-y", "-i", "o.mp3.tmp_export.wav", "-q:a", "2", "o.mp3"],
    );
    assert_eq!(mp3_wav_path("o.mp3"), "o.mp3.tmp_export.wav");
    assert_eq!(video_wav_path("o.mp4"), "o.mp4.tmp_video.wav");
}

#[test]
fn messages() {
    assert_eq!(
        missing_message("no such file"),
        "ffmpeg not found: no such file. Install with: brew install ffmpeg",
    );
    assert_eq!(status_message("exit status: 1"), "ffmpeg exited with status exit status: 1");
    assert_eq!(mp3_outcome(true, "exit status: 0"), Ok(()));
    assert_eq!(
        mp3_outcome(false, "exit status: 1").unwrap_err(),
        "ffmpeg exited with status exit status: 1",
    );
}

#[test]
fn hardware_encoder_is_preferred() {
    assert_eq!(&HARDWARE_ENCODER, b"h264_videotoolbox");
    let software = vec!["-c:v", "libx264", "-preset", "veryfast", "-crf", "18"];
    let hardware = vec!["-c:v", "h264_videotoolbox", "-b:v", "10M"];
    assert_eq!(ffmpeg_video_encoder(None), software);
    assert_eq!(ffmpeg_video_encoder(Some(b"")), software);
    assert_eq!(ffmpeg_video_encoder(Some(b" V..... libx264 \n h264_videotoolbo")), software);
    assert_eq!(ffmpeg_video_encoder(Some(b"h264_videotoolbox")), hardware);
    assert_eq!(ffmpeg_video_encoder(Some(b"\xff\xfe V h264_h264_videotoolbox x")), hardware);
}

#[test]
fn export_command_line() {
    let encoder = ffmpeg_video_encoder(None);
    let args = export_args(&None, 1280, 720, 30, "o.wav", encoder, "o.mp4");
    assert_eq!(
        args,
        vec![
            "-y", "-f", "rawvideo", "-pix_fmt", "rgba", "-video_size", "1280x720", "-framerate",
            "30", "-i", "pipe:0", "-i", "o.wav", "-c:v", "libx264", "-preset", "veryfast", "-crf",
            "18", "-pix_fmt", "yuv420p", "-c:a", "aac", "-b:a", "192k", "-movflags", "+faststart",
            "-shortest", "o.mp4",
        ],
    );
}

#[test]
fn export_command_line_with_a_background() {
    let (w, h, fps, b) = (1280, 720, 30, 0.5f64);
    let filter = format!(
        "[0:v]scale={w}:{h}:force_original_aspect_ratio=increase,crop={w}:{h},fps={fps},\
         colorlevels=romax={b}:gomax={b}:bomax={b},setsar=1[bg];\
         [bg][1:v]overlay=0:0:eof_action=pass:format=auto[outv]"
    );
    let background = Background {
        path: "bg.mov".to_string(),
        duration: "3.000".to_string(),
        brightness: b.to_string(),
    };
    let encoder = ffmpeg_video_encoder(Some(b"h264_videotoolbox"));
    let args = export_args(&Some(background), 1280, 720, 30, "o.wav", encoder, "o.mp4");
    assert_eq!(
        args,
        vec![
            "-y", "-t", "3.000", "-i", "bg.mov", "-f", "rawvideo", "-pix_fmt", "rgba",
            "-video_size", "1280x720", "-framerate", "30", "-i", "pipe:0", "-i", "o.wav",
            "-filter_complex", &filter, "-map", "[outv]", "-map", "2:a", "-c:v",
            "h264_videotoolbox", "-b:v", "10M", "-pix_fmt", "yuv420p", "-c:a", "aac", "-b:a",
            "192k", "-movflags", "+faststart", "-shortest", "o.mp4",
        ],
    );
}

#[test]
fn the_last_lines_are_kept() {
    let mut tail = ErrorTail::new();
    assert_eq!(tail.text(), "");
    tail.push("only".to_string());
    assert_eq!(tail.text(), "only");
    for i in 0..20 {
        tail.push(format!("line {i}"));
    }
    let expected: Vec<String> = (8..20).map(|i| format!("line {i}")).collect();
    assert_eq!(tail.lines, expected);
    assert_eq!(tail.text(), expected.join("\n"));
}
