//! Command lines for ffmpeg, and what is made of its answers.

use vstd::prelude::*;
use crate::text;
use crate::text::{decimal, joined};

verus! {

/// The texts of some strings.
pub open spec fn texts(strings: Seq<String>) -> Seq<Seq<char>> {
    Seq::new(strings.len(), |i: int| strings[i]@)
}

/// Appends one argument.
fn arg(args: &mut Vec<String>, text: &str)
    ensures
        texts(final(args)@) == texts(old(args)@).push(text@),
{
    args.push(text.to_string());
    assert(texts(args@) =~= texts(old(args)@).push(text@));
}

/// The arguments that convert a WAV file to an MP3 file, overwriting it, at a variable rate of
/// about 190 kbit/s.
pub fn mp3_args(wav_path: &str, output_path: &str) -> (args: Vec<String>)
    ensures
        texts(args@) == seq!["-y"@, "-i"@, wav_path@, "-q:a"@, "2"@, output_path@],
{
    let mut args: Vec<String> = Vec::new();
    arg(&mut args, "-y");
    arg(&mut args, "-i");
    arg(&mut args, wav_path);
    arg(&mut args, "-q:a");
    arg(&mut args, "2");
    arg(&mut args, output_path);
    assert(texts(args@) =~= seq!["-y"@, "-i"@, wav_path@, "-q:a"@, "2"@, output_path@]);
    args
}

/// The WAV file that is written on the way to an MP3 file.
pub fn mp3_wav_path(output_path: &str) -> (path: String)
    ensures
        path@ == output_path@ + ".tmp_export.wav"@,
{
    joined(output_path, ".tmp_export.wav")
}

/// The WAV file that is written on the way to a video.
pub fn video_wav_path(output_path: &str) -> (path: String)
    ensures
        path@ == output_path@ + ".tmp_video.wav"@,
{
    joined(output_path, ".tmp_video.wav")
}

/// The message where ffmpeg could not be started.
pub fn missing_message(error: &str) -> (message: String)
    ensures
        message@ == "ffmpeg not found: "@ + error@ + ". Install with: brew install ffmpeg"@,
{
    let mut message: String = joined("ffmpeg not found: ", error);
    message.append(". Install with: brew install ffmpeg");
    message
}

/// The message where ffmpeg failed.
pub fn status_message(status: &str) -> (message: String)
    ensures
        message@ == "ffmpeg exited with status "@ + status@,
{
    joined("ffmpeg exited with status ", status)
}

/// What comes of a conversion to MP3.
pub fn mp3_outcome(success: bool, status: &str) -> (outcome: Result<(), String>)
    ensures
        success ==> outcome is Ok,
        !success ==> (outcome matches Err(e) && e@ == "ffmpeg exited with status "@ + status@),
{
    if success {
        Ok(())
    } else {
        Err(status_message(status))
    }
}

/// "h264_videotoolbox".
pub const HARDWARE_ENCODER: [u8; 17] = [
    0x68, 0x32, 0x36, 0x34, 0x5f, 0x76, 0x69, 0x64, 0x65, 0x6f, 0x74, 0x6f, 0x6f, 0x6c, 0x62, 0x6f,
    0x78,
];

/// `needle` stands somewhere in `bytes`.
pub open spec fn mentions(bytes: Seq<u8>, needle: Seq<u8>) -> bool {
    exists|i: int|
        0 <= i <= bytes.len() - needle.len() && #[trigger] bytes.subrange(
            i,
            i + needle.len() as int,
        ) == needle
}

/// Whether the list of encoders has the hardware encoder.
fn has_hardware_encoder(list: &[u8]) -> (yes: bool)
    ensures
        yes == mentions(list@, HARDWARE_ENCODER@),
{
    let n: usize = 17;
    if list.len() < n {
        return false;
    }
    let mut i: usize = 0;
    while i <= list.len() - n
        invariant
            n == 17,
            n <= list@.len() <= usize::MAX,
            i <= list@.len() - n + 1,
            forall|k: int| 0 <= k < i ==> #[trigger] list@.subrange(k, k + 17) != HARDWARE_ENCODER@,
        decreases list@.len() - n + 1 - i,
    {
        let mut j: usize = 0;
        while j < n && list[i + j] == HARDWARE_ENCODER[j]
            invariant
                n == 17,
                j <= n,
                i + n <= list@.len() <= usize::MAX,
                forall|k: int| 0 <= k < j ==> list@[i + k] == #[trigger] HARDWARE_ENCODER@[k],
            decreases n - j,
        {
            j += 1;
        }
        if j == n {
            assert(list@.subrange(i as int, i + 17) =~= HARDWARE_ENCODER@);
            return true;
        }
        assert(list@.subrange(i as int, i + 17)[j as int] != HARDWARE_ENCODER@[j as int]);
        i += 1;
    }
    false
}

/// The arguments that choose the encoder.
pub open spec fn encoder_texts(hardware: bool) -> Seq<Seq<char>> {
    if hardware {
        seq!["-c:v"@, "h264_videotoolbox"@, "-b:v"@, "10M"@]
    } else {
        seq!["-c:v"@, "libx264"@, "-preset"@, "veryfast"@, "-crf"@, "18"@]
    }
}

/// The arguments that choose the encoder: the hardware one if the list of encoders has it.
/// There is no list where ffmpeg did not give one.
pub fn ffmpeg_video_encoder(list: Option<&[u8]>) -> (args: Vec<String>)
    ensures
        texts(args@) == encoder_texts(list is Some && mentions(list->0@, HARDWARE_ENCODER@)),
{
    let hardware: bool = match list {
        Some(bytes) => has_hardware_encoder(bytes),
        None => false,
    };
    let mut args: Vec<String> = Vec::new();
    arg(&mut args, "-c:v");
    if hardware {
        arg(&mut args, "h264_videotoolbox");
        arg(&mut args, "-b:v");
        arg(&mut args, "10M");
    } else {
        arg(&mut args, "libx264");
        arg(&mut args, "-preset");
        arg(&mut args, "veryfast");
        arg(&mut args, "-crf");
        arg(&mut args, "18");
    }
    assert(texts(args@) =~= encoder_texts(hardware));
    args
}

/// The size of the frames, as ffmpeg takes it.
pub open spec fn size_text(width: nat, height: nat) -> Seq<char> {
    text::decimal_chars(width) + "x"@ + text::decimal_chars(height)
}

/// The filter that puts the frames on top of the background: it is scaled to cover the frame,
/// cropped, brought to the frame rate and dimmed.
pub open spec fn filter_text(width: nat, height: nat, fps: nat, brightness: Seq<char>) -> Seq<char> {
    let w = text::decimal_chars(width);
    let h = text::decimal_chars(height);
    "[0:v]scale="@ + w + ":"@ + h + ":force_original_aspect_ratio=increase,crop="@ + w + ":"@ + h
        + ",fps="@ + text::decimal_chars(fps) + ",colorlevels=romax="@ + brightness + ":gomax="@
        + brightness + ":bomax="@ + brightness
        + ",setsar=1[bg];[bg][1:v]overlay=0:0:eof_action=pass:format=auto[outv]"@
}

fn filter(width: u32, height: u32, fps: u32, brightness: &str) -> (filter: String)
    ensures
        filter@ == filter_text(width as nat, height as nat, fps as nat, brightness@),
{
    let w: String = decimal(width as u64);
    let h: String = decimal(height as u64);
    let mut filter: String = joined("[0:v]scale=", w.as_str());
    filter.append(":");
    filter.append(h.as_str());
    filter.append(":force_original_aspect_ratio=increase,crop=");
    filter.append(w.as_str());
    filter.append(":");
    filter.append(h.as_str());
    filter.append(",fps=");
    filter.append(decimal(fps as u64).as_str());
    filter.append(",colorlevels=romax=");
    filter.append(brightness);
    filter.append(":gomax=");
    filter.append(brightness);
    filter.append(":bomax=");
    filter.append(brightness);
    filter.append(",setsar=1[bg];[bg][1:v]overlay=0:0:eof_action=pass:format=auto[outv]");
    filter
}

/// A video to put the frames on. `duration` is how much of it is read, in seconds, and
/// `brightness` how bright it stays, both as text.
pub struct Background {
    pub path: String,
    pub duration: String,
    pub brightness: String,
}

/// The whole command line of an export: the background if there is one, the frames on standard
/// input, the audio, how to combine them, the encoder and the output.
pub open spec fn export_texts(
    background: Option<Background>,
    width: nat,
    height: nat,
    fps: nat,
    wav_path: Seq<char>,
    encoder: Seq<Seq<char>>,
    output_path: Seq<char>,
) -> Seq<Seq<char>> {
    let video = match background {
        Some(bg) => seq!["-y"@, "-t"@, bg.duration@, "-i"@, bg.path@],
        None => seq!["-y"@],
    };
    let inputs = video + seq![
        "-f"@,
        "rawvideo"@,
        "-pix_fmt"@,
        "rgba"@,
        "-video_size"@,
        size_text(width, height),
        "-framerate"@,
        text::decimal_chars(fps),
        "-i"@,
        "pipe:0"@,
        "-i"@,
        wav_path,
    ];
    let combined = match background {
        Some(bg) => inputs + seq![
            "-filter_complex"@,
            filter_text(width, height, fps, bg.brightness@),
            "-map"@,
            "[outv]"@,
            "-map"@,
            "2:a"@,
        ],
        None => inputs,
    };
    combined + encoder + seq![
        "-pix_fmt"@,
        "yuv420p"@,
        "-c:a"@,
        "aac"@,
        "-b:a"@,
        "192k"@,
        "-movflags"@,
        "+faststart"@,
        "-shortest"@,
        output_path,
    ]
}

/// The whole command line of an export.
pub fn export_args(
    background: &Option<Background>,
    width: u32,
    height: u32,
    fps: u32,
    wav_path: &str,
    mut encoder: Vec<String>,
    output_path: &str,
) -> (args: Vec<String>)
    ensures
        texts(args@) == export_texts(
            *background,
            width as nat,
            height as nat,
            fps as nat,
            wav_path@,
            texts(encoder@),
            output_path@,
        ),
{
    let ghost chosen = texts(encoder@);
    let mut args: Vec<String> = Vec::new();
    arg(&mut args, "-y");
    if let Some(bg) = background {
        arg(&mut args, "-t");
        arg(&mut args, bg.duration.as_str());
        arg(&mut args, "-i");
        arg(&mut args, bg.path.as_str());
    }
    let ghost video = texts(args@);
    proof {
        match background {
            Some(bg) => {
                assert(video =~= seq!["-y"@, "-t"@, bg.duration@, "-i"@, bg.path@]);
            },
            None => {
                assert(video =~= seq!["-y"@]);
            },
        }
    }
    let mut size: String = joined(decimal(width as u64).as_str(), "x");
    size.append(decimal(height as u64).as_str());
    arg(&mut args, "-f");
    arg(&mut args, "rawvideo");
    arg(&mut args, "-pix_fmt");
    arg(&mut args, "rgba");
    arg(&mut args, "-video_size");
    arg(&mut args, size.as_str());
    arg(&mut args, "-framerate");
    arg(&mut args, decimal(fps as u64).as_str());
    arg(&mut args, "-i");
    arg(&mut args, "pipe:0");
    arg(&mut args, "-i");
    arg(&mut args, wav_path);
    let ghost inputs = texts(args@);
    assert(inputs =~= video + seq![
        "-f"@,
        "rawvideo"@,
        "-pix_fmt"@,
        "rgba"@,
        "-video_size"@,
        size_text(width as nat, height as nat),
        "-framerate"@,
        text::decimal_chars(fps as nat),
        "-i"@,
        "pipe:0"@,
        "-i"@,
        wav_path@,
    ]);
    if let Some(bg) = background {
        arg(&mut args, "-filter_complex");
        arg(&mut args, filter(width, height, fps, bg.brightness.as_str()).as_str());
        arg(&mut args, "-map");
        arg(&mut args, "[outv]");
        arg(&mut args, "-map");
        arg(&mut args, "2:a");
    }
    let ghost combined = texts(args@);
    proof {
        if let Some(bg) = background {
            assert(combined =~= inputs + seq![
                "-filter_complex"@,
                filter_text(width as nat, height as nat, fps as nat, bg.brightness@),
                "-map"@,
                "[outv]"@,
                "-map"@,
                "2:a"@,
            ]);
        }
    }
    let ghost before = args@;
    args.append(&mut encoder);
    assert(texts(args@) =~= combined + chosen);
    arg(&mut args, "-pix_fmt");
    arg(&mut args, "yuv420p");
    arg(&mut args, "-c:a");
    arg(&mut args, "aac");
    arg(&mut args, "-b:a");
    arg(&mut args, "192k");
    arg(&mut args, "-movflags");
    arg(&mut args, "+faststart");
    arg(&mut args, "-shortest");
    arg(&mut args, output_path);
    assert(texts(args@) =~= combined + chosen + seq![
        "-pix_fmt"@,
        "yuv420p"@,
        "-c:a"@,
        "aac"@,
        "-b:a"@,
        "192k"@,
        "-movflags"@,
        "+faststart"@,
        "-shortest"@,
        output_path@,
    ]);
    args
}

/// Lines of output kept for error messages.
pub const TAIL_LINES: usize = 12;

/// The last lines of a text.
pub open spec fn last_lines(lines: Seq<Seq<char>>) -> Seq<Seq<char>> {
    if lines.len() <= TAIL_LINES {
        lines
    } else {
        lines.skip(lines.len() - TAIL_LINES)
    }
}

/// Some lines as one text.
pub open spec fn line_text(lines: Seq<Seq<char>>) -> Seq<char>
    decreases lines.len(),
{
    if lines.len() == 0 {
        Seq::empty()
    } else if lines.len() == 1 {
        lines[0]
    } else {
        line_text(lines.drop_last()) + "\n"@ + lines.last()
    }
}

/// Keeps the last lines of ffmpeg's output.
pub struct ErrorTail {
    pub lines: Vec<String>,
}

impl View for ErrorTail {
    type V = Seq<Seq<char>>;

    open spec fn view(&self) -> Seq<Seq<char>> {
        texts(self.lines@)
    }
}

impl ErrorTail {
    pub fn new() -> (tail: ErrorTail)
        ensures
            tail@ == Seq::<Seq<char>>::empty(),
    {
        let tail: ErrorTail = ErrorTail { lines: Vec::new() };
        assert(tail@ =~= Seq::<Seq<char>>::empty());
        tail
    }

    /// Takes a line.
    pub fn push(&mut self, line: String)
        requires
            old(self)@.len() <= TAIL_LINES,
        ensures
            final(self)@ == last_lines(old(self)@.push(line@)),
            final(self)@.len() <= TAIL_LINES,
    {
        self.lines.push(line);
        if self.lines.len() > TAIL_LINES {
            let _ = self.lines.remove(0);
        }
        assert(self@ =~= last_lines(old(self)@.push(line@)));
    }

    /// The lines as one text.
    pub fn text(&self) -> (text: String)
        ensures
            text@ == line_text(self@),
    {
        let mut text: String = String::new();
        let mut i: usize = 0;
        assert(self@.take(0) =~= Seq::<Seq<char>>::empty());
        while i < self.lines.len()
            invariant
                i <= self.lines@.len(),
                text@ == line_text(self@.take(i as int)),
            decreases self.lines@.len() - i,
        {
            let ghost before = text@;
            if i > 0 {
                text.append("\n");
            }
            text.append(self.lines[i].as_str());
            proof {
                assert(self@.take(i + 1).drop_last() =~= self@.take(i as int));
                if i == 0 {
                    assert(text@ =~= self@[0]);
                }
            }
            i += 1;
        }
        assert(self@.take(i as int) =~= self@);
        text
    }
}

/// Keeping the last lines as they come keeps the last lines of them all.
pub proof fn law_tail_keeps_the_last_lines(lines: Seq<Seq<char>>, line: Seq<char>)
    ensures
        last_lines(last_lines(lines).push(line)) == last_lines(lines.push(line)),
{
    assert(last_lines(last_lines(lines).push(line)) =~= last_lines(lines.push(line)));
}

/// Where the options of the frames begin on the command line of an export.
pub open spec fn frames_at(background: Option<Background>) -> int {
    if background is Some {
        5
    } else {
        1
    }
}

/// Where the encoder begins.
pub open spec fn encoder_at(background: Option<Background>) -> int {
    if background is Some {
        23
    } else {
        13
    }
}

/// How the frames are told to ffmpeg: raw RGBA on standard input, of the given size and at the
/// given rate, each number in decimal notation, so that reading it back gives the number; then
/// the audio.
pub proof fn law_frames_are_told_as_given(
    background: Option<Background>,
    width: nat,
    height: nat,
    fps: nat,
    wav_path: Seq<char>,
    encoder: Seq<Seq<char>>,
    output_path: Seq<char>,
)
    ensures
        ({
            let args = export_texts(background, width, height, fps, wav_path, encoder, output_path);
            let at = frames_at(background);
            &&& args.len() == encoder_at(background) + encoder.len() + 10
            &&& args[0] == "-y"@
            &&& args[at] == "-f"@ && args[at + 1] == "rawvideo"@
            &&& args[at + 2] == "-pix_fmt"@ && args[at + 3] == "rgba"@
            &&& args[at + 4] == "-video_size"@
            &&& exists|w: Seq<char>, h: Seq<char>|
                #![trigger text::digits_value(w), text::digits_value(h)]
                args[at + 5] == w + "x"@ + h && text::digits_value(w) == width
                    && text::digits_value(h) == height
            &&& args[at + 6] == "-framerate"@
            &&& text::digits_value(args[at + 7]) == fps
            &&& args[at + 8] == "-i"@ && args[at + 9] == "pipe:0"@
            &&& args[at + 10] == "-i"@ && args[at + 11] == wav_path
        }),
{
    text::law_decimal_reads_back(width);
    text::law_decimal_reads_back(height);
    text::law_decimal_reads_back(fps);
    let (w, h) = (text::decimal_chars(width), text::decimal_chars(height));
    assert(size_text(width, height) == w + "x"@ + h);
    let args = export_texts(background, width, height, fps, wav_path, encoder, output_path);
    let at = frames_at(background);
    assert(args[at + 5] == w + "x"@ + h && text::digits_value(w) == width && text::digits_value(h)
        == height);
}

/// Exports that differ in their frame rate only differ in what they tell ffmpeg of it.
pub proof fn law_frame_rates_are_told_apart(
    background: Option<Background>,
    width: nat,
    height: nat,
    fps: nat,
    other: nat,
    wav_path: Seq<char>,
    encoder: Seq<Seq<char>>,
    output_path: Seq<char>,
)
    requires
        fps != other,
    ensures
        ({
            let a = export_texts(background, width, height, fps, wav_path, encoder, output_path);
            let b = export_texts(background, width, height, other, wav_path, encoder, output_path);
            let at = frames_at(background) + 7;
            &&& a[at] != b[at]
            &&& background is None ==> a.len() == b.len() && forall|i: int|
                0 <= i < a.len() && i != at ==> #[trigger] a[i] == b[i]
        }),
{
    law_frames_are_told_as_given(background, width, height, fps, wav_path, encoder, output_path);
    law_frames_are_told_as_given(background, width, height, other, wav_path, encoder, output_path);
}

/// The encoder's arguments come as they were chosen, after all inputs; then the pixel format, the
/// audio codec, and at the very end the output, cut to the shorter of picture and sound.
pub proof fn law_output_is_told_as_given(
    background: Option<Background>,
    width: nat,
    height: nat,
    fps: nat,
    wav_path: Seq<char>,
    encoder: Seq<Seq<char>>,
    output_path: Seq<char>,
)
    ensures
        ({
            let args = export_texts(background, width, height, fps, wav_path, encoder, output_path);
            let at = encoder_at(background) + encoder.len();
            &&& args.subrange(encoder_at(background), at as int) == encoder
            &&& args.skip(at as int) == seq![
                "-pix_fmt"@,
                "yuv420p"@,
                "-c:a"@,
                "aac"@,
                "-b:a"@,
                "192k"@,
                "-movflags"@,
                "+faststart"@,
                "-shortest"@,
                output_path,
            ]
        }),
{
    let args = export_texts(background, width, height, fps, wav_path, encoder, output_path);
    let at = encoder_at(background) + encoder.len();
    assert(args.subrange(encoder_at(background), at as int) =~= encoder);
    assert(args.skip(at as int) =~= seq![
        "-pix_fmt"@,
        "yuv420p"@,
        "-c:a"@,
        "aac"@,
        "-b:a"@,
        "192k"@,
        "-movflags"@,
        "+faststart"@,
        "-shortest"@,
        output_path,
    ]);
}

/// A background is the first input, read for as long as the export lasts; it is scaled to cover
/// the frame, cropped to it, brought to its rate and dimmed, the frames are laid on top of it, and
/// the sound is that of the audio file. Without one there is no filter.
pub proof fn law_background_lies_under_the_frames(
    background: Option<Background>,
    width: nat,
    height: nat,
    fps: nat,
    wav_path: Seq<char>,
    encoder: Seq<Seq<char>>,
    output_path: Seq<char>,
    w: Seq<char>,
    h: Seq<char>,
    rate: Seq<char>,
)
    requires
        w == text::decimal_chars(width),
        h == text::decimal_chars(height),
        rate == text::decimal_chars(fps),
    ensures
        background matches Some(bg) ==> {
            let args = export_texts(background, width, height, fps, wav_path, encoder, output_path);
            &&& args[1] == "-t"@ && args[2] == bg.duration@
            &&& args[3] == "-i"@ && args[4] == bg.path@
            &&& args[17] == "-filter_complex"@
            &&& args[18] == "[0:v]scale="@ + w + ":"@ + h
                + ":force_original_aspect_ratio=increase,crop="@ + w + ":"@ + h + ",fps="@ + rate
                + ",colorlevels=romax="@ + bg.brightness@ + ":gomax="@ + bg.brightness@ + ":bomax="@
                + bg.brightness@
                + ",setsar=1[bg];[bg][1:v]overlay=0:0:eof_action=pass:format=auto[outv]"@
            &&& args[19] == "-map"@ && args[20] == "[outv]"@
            &&& args[21] == "-map"@ && args[22] == "2:a"@
        },
{
}

/// The hardware encoder is chosen exactly where it is found; both encoders are told what to make
/// of quality in their own way.
pub proof fn law_encoders_are_told_apart(hardware: bool)
    ensures
        encoder_texts(hardware)[0] == "-c:v"@,
        hardware ==> encoder_texts(hardware) == seq![
            "-c:v"@,
            "h264_videotoolbox"@,
            "-b:v"@,
            "10M"@,
        ],
        !hardware ==> encoder_texts(hardware) == seq![
            "-c:v"@,
            "libx264"@,
            "-preset"@,
            "veryfast"@,
            "-crf"@,
            "18"@,
        ],
{
}

/// A text is mentioned wherever it stands: whatever comes before and after it, it is found; and
/// where it is found, the bytes are there.
pub proof fn law_mentions_are_found(before: Seq<u8>, needle: Seq<u8>, after: Seq<u8>)
    ensures
        mentions(before + needle + after, needle),
        forall|bytes: Seq<u8>| #[trigger] mentions(bytes, needle) ==> exists|a: Seq<u8>, b: Seq<u8>|
            #![trigger a + needle + b]
            bytes == a + needle + b,
{
    let all = before + needle + after;
    let i = before.len() as int;
    assert(all.subrange(i, i + needle.len() as int) =~= needle);
    assert forall|bytes: Seq<u8>| #[trigger] mentions(bytes, needle) implies exists|
        a: Seq<u8>,
        b: Seq<u8>,
    |
        #![trigger a + needle + b]
        bytes == a + needle + b by {
        let i = choose|i: int|
            0 <= i <= bytes.len() - needle.len() && #[trigger] bytes.subrange(
                i,
                i + needle.len() as int,
            ) == needle;
        let a = bytes.take(i);
        let b = bytes.skip(i + needle.len() as int);
        let found = bytes.subrange(i, i + needle.len() as int);
        assert forall|k: int| 0 <= k < bytes.len() implies bytes[k] == (a + needle + b)[k] by {
            if i <= k < i + needle.len() {
                assert(found[k - i] == bytes[k]);
            }
        }
        assert(bytes =~= a + needle + b);
    }
}

/// The lines that are kept are the last ones: twelve of them, or all where there are fewer.
pub proof fn law_kept_lines_are_the_last(lines: Seq<Seq<char>>, i: int)
    requires
        0 <= i < last_lines(lines).len(),
    ensures
        last_lines(lines).len() == (if lines.len() < 12 { lines.len() as int } else { 12 }),
        last_lines(lines)[i] == lines[lines.len() - last_lines(lines).len() + i],
{
}

/// Lines as one text stand one after the other, with a line break between each two.
pub proof fn law_lines_are_joined_by_breaks(lines: Seq<Seq<char>>, line: Seq<char>)
    ensures
        line_text(Seq::empty()) == Seq::<char>::empty(),
        line_text(seq![line]) == line,
        lines.len() > 0 ==> line_text(lines.push(line)) == line_text(lines) + "\n"@ + line,
{
    assert(lines.push(line).drop_last() =~= lines);
}

/// The texts of some strings are their characters, in order.
pub proof fn law_texts_are_the_strings(strings: Seq<String>, i: int)
    requires
        0 <= i < strings.len(),
    ensures
        texts(strings).len() == strings.len(),
        texts(strings)[i] == strings[i]@,
{
}

} // verus!
