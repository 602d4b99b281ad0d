//! Where to look for a font that can show CJK text.
use vstd::prelude::*;
use crate::path::{join, join_chars};
use crate::text::{chars_of, string_of};

verus! {

/// The Windows fonts directory: `<windir>/Fonts`, with `C:\Windows` when the
/// `WINDIR` variable is not set.
pub open spec fn windows_fonts_dir(windir: Option<Seq<char>>) -> Seq<char> {
    let root = match windir {
        Some(w) => w,
        None => "C:\\Windows"@,
    };
    join(root, "Fonts"@)
}

/// The (font name, file path) candidates, in the order they are tried.
pub open spec fn font_candidates(on_windows: bool, windir: Option<Seq<char>>) -> Seq<
    (Seq<char>, Seq<char>),
> {
    if on_windows {
        let d = windows_fonts_dir(windir);
        seq![
            ("Microsoft YaHei"@, join(d, "msyh.ttc"@)),
            ("Microsoft YaHei UI"@, join(d, "msyh.ttc"@)),
            ("DengXian"@, join(d, "Deng.ttf"@)),
            ("SimHei"@, join(d, "simhei.ttf"@)),
            ("SimSun"@, join(d, "simsun.ttc"@)),
        ]
    } else {
        seq![
            ("Noto Sans CJK"@, "/usr/share/fonts/opentype/noto/NotoSansCJK-Regular.ttc"@),
            ("Noto Sans CJK"@, "/usr/share/fonts/truetype/noto/NotoSansCJK-Regular.ttc"@),
            ("WenQuanYi Micro Hei"@, "/usr/share/fonts/truetype/wqy/wqy-microhei.ttc"@),
        ]
    }
}

/// The views of a list of (name, path) pairs.
pub open spec fn pair_views(v: Seq<(String, String)>) -> Seq<(Seq<char>, Seq<char>)> {
    Seq::new(v.len(), |i: int| (v[i].0@, v[i].1@))
}

fn joined(dir: &Vec<char>, file: &str) -> (res: String)
    ensures
        res@ == join(dir@, file@),
{
    let f = chars_of(file);
    let j = join_chars(dir, &f);
    string_of(j.as_slice())
}

/// Candidate CJK fonts: the usual Windows fonts under the Windows fonts
/// directory (`windir` is the value of `WINDIR`, if set), else the usual
/// Noto / WenQuanYi files of Linux distributions.
pub fn cjk_font_candidates(on_windows: bool, windir: Option<&str>) -> (res: Vec<(String, String)>)
    ensures
        pair_views(res@) == font_candidates(
            on_windows,
            match windir {
                Some(w) => Some(w@),
                None => None,
            },
        ),
{
    let mut out: Vec<(String, String)> = Vec::new();
    if on_windows {
        let root = match windir {
            Some(w) => chars_of(w),
            None => chars_of("C:\\Windows"),
        };
        let fonts = chars_of("Fonts");
        let d = join_chars(&root, &fonts);
        out.push((String::from_str("Microsoft YaHei"), joined(&d, "msyh.ttc")));
        out.push((String::from_str("Microsoft YaHei UI"), joined(&d, "msyh.ttc")));
        out.push((String::from_str("DengXian"), joined(&d, "Deng.ttf")));
        out.push((String::from_str("SimHei"), joined(&d, "simhei.ttf")));
        out.push((String::from_str("SimSun"), joined(&d, "simsun.ttc")));
    } else {
        out.push(
            (
                String::from_str("Noto Sans CJK"),
                String::from_str("/usr/share/fonts/opentype/noto/NotoSansCJK-Regular.ttc"),
            ),
        );
        out.push(
            (
                String::from_str("Noto Sans CJK"),
                String::from_str("/usr/share/fonts/truetype/noto/NotoSansCJK-Regular.ttc"),
            ),
        );
        out.push(
            (
                String::from_str("WenQuanYi Micro Hei"),
                String::from_str("/usr/share/fonts/truetype/wqy/wqy-microhei.ttc"),
            ),
        );
    }
    proof {
        let w = match windir {
            Some(w) => Some(w@),
            None => None,
        };
        assert(pair_views(out@) =~= font_candidates(on_windows, w));
    }
    out
}

} // verus!
