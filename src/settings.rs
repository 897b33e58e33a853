//! What a conversion job is asked to do, and the command line that asks it.
use vstd::prelude::*;
use vstd::string::StringExecFns;

verus! {

/// The frame rate, in frames per second, of every animated GIF made.
pub const STANDARD_FPS: u16 = 10;

/// The settings of a conversion job.
pub struct Settings {
    /// The path of the transcoder binary; where absent, `ffmpeg` is looked up
    /// on the system's search path.
    ffmpeg_path: Option<String>,
    /// The path of the video to convert.
    video_path: String,
    /// The frame rate of the animated GIF.
    gif_fps: u16,
    /// The width, in pixels, of the animated GIF.
    gif_width: u16,
}

/// The abstract contents of [`Settings`].
pub struct SettingsView {
    pub ffmpeg_path: Option<Seq<char>>,
    pub video_path: Seq<char>,
    pub fps: u16,
    pub width: u16,
}

impl View for Settings {
    type V = SettingsView;

    closed spec fn view(&self) -> SettingsView {
        SettingsView {
            ffmpeg_path: match self.ffmpeg_path {
                Some(p) => Some(p@),
                None => None,
            },
            video_path: self.video_path@,
            fps: self.gif_fps,
            width: self.gif_width,
        }
    }
}

/// The character of a decimal digit.
pub open spec fn digit_char(d: nat) -> char {
    if d == 0 {
        '0'
    } else if d == 1 {
        '1'
    } else if d == 2 {
        '2'
    } else if d == 3 {
        '3'
    } else if d == 4 {
        '4'
    } else if d == 5 {
        '5'
    } else if d == 6 {
        '6'
    } else if d == 7 {
        '7'
    } else if d == 8 {
        '8'
    } else {
        '9'
    }
}

/// A number written in decimal, without leading zeros.
pub open spec fn decimal(n: nat) -> Seq<char>
    decreases n,
{
    if n < 10 {
        seq![digit_char(n)]
    } else {
        decimal(n / 10).push(digit_char(n % 10))
    }
}

/// The filter graph that scales the video to `width` at `fps` frames per
/// second and quantises it with a palette made from the video itself.
pub open spec fn filter_complex_text(fps: u16, width: u16) -> Seq<char> {
    "fps="@ + decimal(fps as nat) + ",scale="@ + decimal(width as nat)
        + ":-1[s]; [s]split[a][b]; [a]palettegen[palette]; [b][palette]paletteuse"@
}

/// The binary that runs a job: the given path, or `ffmpeg`.
pub open spec fn binary_path_text(s: SettingsView) -> Seq<char> {
    match s.ffmpeg_path {
        Some(p) => p,
        None => "ffmpeg"@,
    }
}

/// The arguments of the transcoder for a job: read the video, report
/// statistics, apply the filter graph and write a GIF to the output stream.
pub open spec fn arguments_text(s: SettingsView) -> Seq<Seq<char>> {
    seq![
        "-stats"@,
        "-i"@,
        s.video_path,
        "-filter_complex"@,
        filter_complex_text(s.fps, s.width),
        "-f"@,
        "gif"@,
        "-"@,
    ]
}

fn digit_text(d: u16) -> (r: &'static str)
    requires
        d < 10,
    ensures
        r@ == seq![digit_char(d as nat)],
{
    proof {
        reveal_strlit("0");
        reveal_strlit("1");
        reveal_strlit("2");
        reveal_strlit("3");
        reveal_strlit("4");
        reveal_strlit("5");
        reveal_strlit("6");
        reveal_strlit("7");
        reveal_strlit("8");
        reveal_strlit("9");
    }
    match d {
        0 => "0",
        1 => "1",
        2 => "2",
        3 => "3",
        4 => "4",
        5 => "5",
        6 => "6",
        7 => "7",
        8 => "8",
        _ => "9",
    }
}

/// Appends `n` in decimal to `out`.
pub fn push_decimal(out: &mut String, n: u16)
    ensures
        final(out)@ == old(out)@ + decimal(n as nat),
    decreases n,
{
    if n >= 10 {
        push_decimal(out, n / 10);
    }
    out.append(digit_text(n % 10));
    proof {
        if n >= 10 {
            assert(decimal(n as nat) == decimal((n / 10) as nat).push(digit_char((n % 10) as nat)));
        }
    }
    assert(final(out)@ =~= old(out)@ + decimal(n as nat));
}

impl Settings {
    /// The settings of a job that makes a GIF of the given width, which is
    /// positive, at the standard frame rate, with `ffmpeg` taken from the
    /// search path.
    pub fn with_standard_fps(video_path: String, width: u16) -> (r: Settings)
        requires
            width > 0,
        ensures
            r@.ffmpeg_path is None,
            r@.video_path == video_path@,
            r@.fps == STANDARD_FPS,
            r@.width == width,
    {
        Settings { ffmpeg_path: None, video_path, gif_fps: STANDARD_FPS, gif_width: width }
    }

    /// The same settings, with the transcoder taken from `ffmpeg_path`.
    pub fn ffmpeg_path(self, ffmpeg_path: &str) -> (r: Settings)
        ensures
            r@.ffmpeg_path == Some(ffmpeg_path@),
            r@.video_path == self@.video_path,
            r@.fps == self@.fps,
            r@.width == self@.width,
    {
        Settings { ffmpeg_path: Some(ffmpeg_path.to_owned()), ..self }
    }

    /// The path of the transcoder binary to run.
    pub fn binary_path(&self) -> (r: String)
        ensures
            r@ == binary_path_text(self@),
    {
        match &self.ffmpeg_path {
            Some(p) => p.clone(),
            None => "ffmpeg".to_owned(),
        }
    }

    /// The value of the transcoder's `-filter_complex` option.
    pub fn generate_filter_complex(&self) -> (r: String)
        ensures
            r@ == filter_complex_text(self@.fps, self@.width),
    {
        let mut out = "fps=".to_owned();
        push_decimal(&mut out, self.gif_fps);
        out.append(",scale=");
        push_decimal(&mut out, self.gif_width);
        out.append(":-1[s]; [s]split[a][b]; [a]palettegen[palette]; [b][palette]paletteuse");
        out
    }

    /// The arguments to run the transcoder with.
    pub fn arguments(&self) -> (r: Vec<String>)
        ensures
            r@.len() == 8,
            forall|i: int| 0 <= i < 8 ==> #[trigger] r@[i]@ == arguments_text(self@)[i],
    {
        let mut r: Vec<String> = Vec::new();
        r.push("-stats".to_owned());
        r.push("-i".to_owned());
        r.push(self.video_path.clone());
        r.push("-filter_complex".to_owned());
        r.push(self.generate_filter_complex());
        r.push("-f".to_owned());
        r.push("gif".to_owned());
        r.push("-".to_owned());
        r
    }
}

} // verus!
