use std::collections::{HashMap, HashSet};

use itertools::Itertools;
use round_eliminator::constraint::Constraint;
use round_eliminator::group::Group;
use round_eliminator::line::Line;

#[test]
fn testtest() {
    let d = 5;
    let k = 1;

    let letter = |i: usize| (b'a' + i as u8) as char;
    let mut row = String::new();

    for strikeleft in 0..d - k {
        for strikeright in 0..d - k {
            if (strikeleft + strikeright >= d - k) || strikeright == 1 {
                continue;
            }
            for choice in (strikeleft..d - k - strikeright).map(|_| [0, 1].into_iter()).multi_cartesian_product() {
                for i in 0..strikeleft {
                    if i == 0 {
                        row.push_str(&format!("(-{}) ", letter(i)));
                    } else {
                        row.push_str(&format!("(--{}) ", letter(i)));
                    }
                }

                let mut pred = None;

                for (i, value) in choice.into_iter().enumerate() {
                    let i = i + strikeleft;
                    if let Some(pred) = pred {
                        row.push_str(&format!("({}{}{}) ", pred, value, letter(i)));
                    } else if i == 0 {
                        row.push_str(&format!("({}{}) ", value, letter(i)));
                    } else {
                        row.push_str(&format!("(-{}{}) ", value, letter(i)));
                    }
                    pred = Some(value)
                }

                for i in d - k - strikeright..d - k {
                    if let Some(pred) = pred {
                        row.push_str(&format!("({}-{}) ", pred, letter(i)));
                    } else {
                        row.push_str(&format!("(--{}) ", letter(i)));
                    }
                    pred = None;
                }

                for i in d - k..d {
                    row.push_str(&format!("(?{}) ", letter(i)));
                }
                println!("{}", row);
                row.clear();
            }
        }
    }

    for grab in (0..d).filter(|&i| i != d - k - 1) {
        for i in 0..d {
            if i == grab {
                if i == 0 {
                    row.push_str(&format!("(!{}) ", letter(i)));
                } else if i < d - k {
                    row.push_str(&format!("(!!{}) ", letter(i)));
                } else {
                    row.push_str(&format!("(!{}) ", letter(i)));
                }
            } else if i < d - k {
                if i == 0 {
                    row.push_str(&format!("(-{}) ", letter(i)));
                } else {
                    row.push_str(&format!("(--{}) ", letter(i)));
                }
            } else {
                row.push_str(&format!("(?{}) ", letter(i)));
            }
        }
        println!("{}", row);
        row.clear();
    }

    println!();

    let mut names: Vec<String> = Vec::new();
    let mut passive = Constraint::parse(
        "(!!b)(--b)(-0b)(-1b)(0-b)(00b)(01b)(1-b)(10b)(11b) (!!b)(--b)(-0b)(-1b)(0-b)(00b)(01b)(1-b)(10b)(11b) (--b)
(00b) (00b) (00b)
(00b) (01b) (01b)
(00b) (00b) (10b)
(00b) (00b) (11b)
(00b) (01b) (10b)
(00b) (01b) (11b)
(01b) (01b) (10b)
(01b) (01b) (11b)
(00b) (10b) (11b)
(01b) (10b) (10b)
(01b) (11b) (11b)
(10b) (10b) (10b)
(10b) (10b) (11b)
(10b) (11b) (11b)
(11b) (11b) (11b)",
        &mut names,
    )
    .unwrap();
    let mapping_text_label: HashMap<String, u32> =
        names.iter().enumerate().map(|(i, s)| (s.clone(), i as u32)).collect();
    let mapping_label_text: HashMap<u32, String> =
        names.iter().enumerate().map(|(i, s)| (i as u32, s.clone())).collect();
    passive.maximize();

    let edit = |group: &Group| {
        let mut g: HashSet<_> = group.0.iter().cloned().collect();
        let b01 = mapping_text_label["(01b)"];
        let b00 = mapping_text_label["(00b)"];
        let b10 = mapping_text_label["(10b)"];
        let b11 = mapping_text_label["(11b)"];
        let b_0 = mapping_text_label["(-0b)"];
        let b_1 = mapping_text_label["(-1b)"];
        let b0_ = mapping_text_label["(0-b)"];
        let b1_ = mapping_text_label["(1-b)"];
        let b__ = mapping_text_label["(--b)"];
        if g.contains(&b00) && g.contains(&b01) {
            g.insert(b0_);
        }
        if g.contains(&b10) && g.contains(&b11) {
            g.insert(b1_);
        }
        if g.contains(&b00) && g.contains(&b10) {
            g.insert(b_0);
        }
        if g.contains(&b01) && g.contains(&b11) {
            g.insert(b_1);
        }
        g.insert(b__);
        Group(g.into_iter().sorted().collect())
    };
    let mut lines: Vec<Line> = Vec::new();
    for line in &passive.lines {
        let mut newline = line.clone();
        for p in newline.parts.iter_mut() {
            p.group = edit(&p.group);
        }
        newline.normalize();
        if newline.parts.iter().all(|p| !p.group.0.is_empty()) {
            lines.push(newline);
        }
    }
    let passive = Constraint { lines, is_maximized: false, degree: passive.degree };

    println!("(!a)(-a)(0a)(1a) (-a) (-a)(0a)
(-a)(0a) (-a)(0a) (-a)(1a)");
    for i in 1..d - k {
        for line in &passive.lines {
            let s = line.to_string(&mapping_label_text);
            let s = s.replace(letter(1), &format!("{}", letter(i)));
            println!("{}", s);
        }
    }

    for i in d - k..d {
        let s = "(!d)(?d) (!d)(?d) (?d)";
        let s = s.replace(letter(3), &format!("{}", letter(i)));
        println!("{}", s);
    }
}
