use toybox::aim::{
    add_rand_to_grid, click_cell, menu_step, new_game, on_time_up, option_down, option_up,
    options_step, reset_grid, zero_pad3, GameState, MenuOptions, OptionsAction, OptionsKey,
    OptionsScreen, TimeUp,
};

fn lit(g: &[[bool; 5]; 5]) -> usize {
    g.iter().map(|r| r.iter().filter(|c| **c).count()).sum()
}

#[test]
fn reset_lights_three_cells() {
    for _ in 0..50 {
        let mut g = [[true; 5]; 5];
        reset_grid(&mut g);
        assert_eq!(lit(&g), 3);
    }
}

#[test]
fn add_lights_a_free_cell() {
    let mut g = [[false; 5]; 5];
    for k in 1..=25 {
        let before = g;
        add_rand_to_grid(&mut g);
        assert_eq!(lit(&g), k);
        for i in 0..5 {
            for j in 0..5 {
                if before[i][j] {
                    assert!(g[i][j]);
                }
            }
        }
    }
}

#[test]
fn add_uses_the_only_free_cell() {
    let mut g = [[true; 5]; 5];
    g[3][1] = false;
    add_rand_to_grid(&mut g);
    assert_eq!(g, [[true; 5]; 5]);
}

#[test]
fn new_game_resets_everything() {
    let mut g = [[false; 5]; 5];
    let (mut score, mut target, mut started, mut held) = (17, 99, true, true);
    new_game(&mut g, &mut score, &mut target, &mut started, &mut held);
    assert_eq!(lit(&g), 3);
    assert_eq!((score, target, started, held), (0, 35, false, false));
}

#[test]
fn hit_scores_and_moves_the_target() {
    let mut g = [[false; 5]; 5];
    g[0][0] = true;
    g[1][1] = true;
    g[2][2] = true;
    let mut score = 4;
    let mut started = false;
    click_cell(&mut g, 1, 1, &mut score, &mut started);
    assert_eq!(score, 5);
    assert!(started);
    assert!(g[0][0] && g[2][2]);
    assert_eq!(lit(&g), 3);
}

#[test]
fn miss_costs_four_but_not_below_zero() {
    let mut g = [[false; 5]; 5];
    g[0][0] = true;
    let mut score = 10;
    let mut started = true;
    click_cell(&mut g, 4, 4, &mut score, &mut started);
    assert_eq!(score, 6);
    click_cell(&mut g, 4, 4, &mut score, &mut started);
    assert_eq!(score, 2);
    click_cell(&mut g, 4, 4, &mut score, &mut started);
    assert_eq!(score, 0);
    assert_eq!(lit(&g), 1);
}

#[test]
fn click_outside_does_nothing() {
    let mut g = [[false; 5]; 5];
    g[0][0] = true;
    let mut score = 3;
    let mut started = false;
    click_cell(&mut g, 5, 0, &mut score, &mut started);
    click_cell(&mut g, 0, 7, &mut score, &mut started);
    assert_eq!((score, started, lit(&g)), (3, false, 1));
}

#[test]
fn time_up() {
    assert_eq!(on_time_up(10, 35), TimeUp::GameOver);
    assert_eq!(on_time_up(35, 35), TimeUp::NextRound(70));
    assert_eq!(on_time_up(50, 35), TimeUp::NextRound(70));
}

#[test]
fn menu_selection_cycles() {
    assert_eq!(option_up(MenuOptions::TargetTime), MenuOptions::Back);
    assert_eq!(option_down(MenuOptions::Back), MenuOptions::TargetTime);
    assert_eq!(option_down(MenuOptions::TargetTime), MenuOptions::TargetScore);
    assert_eq!(option_up(MenuOptions::Reset), MenuOptions::TargetScore);
    for o in [MenuOptions::TargetTime, MenuOptions::TargetScore, MenuOptions::Reset, MenuOptions::Back] {
        assert_eq!(option_down(option_up(o)), o);
    }
}

#[test]
fn options_screen_keys() {
    let mut s = OptionsScreen { selected: MenuOptions::TargetTime, target_score: 1, button_holded: false };
    assert_eq!(options_step(&mut s, Some(OptionsKey::Down)), OptionsAction::Nothing);
    assert_eq!(s.selected, MenuOptions::TargetScore);
    assert!(s.button_holded);
    // a held key is ignored for one frame
    assert_eq!(options_step(&mut s, Some(OptionsKey::Left)), OptionsAction::Nothing);
    assert_eq!(s.target_score, 1);
    assert!(!s.button_holded);
    assert_eq!(options_step(&mut s, Some(OptionsKey::Left)), OptionsAction::Nothing);
    assert_eq!(s.target_score, 0);
    options_step(&mut s, None);
    assert_eq!(options_step(&mut s, Some(OptionsKey::Left)), OptionsAction::Nothing);
    assert_eq!(s.target_score, 0);
    options_step(&mut s, None);
    options_step(&mut s, Some(OptionsKey::Right));
    assert_eq!(s.target_score, 1);
    options_step(&mut s, None);
    options_step(&mut s, Some(OptionsKey::Up));
    assert_eq!(s.selected, MenuOptions::TargetTime);
    options_step(&mut s, None);
    assert_eq!(options_step(&mut s, Some(OptionsKey::Left)), OptionsAction::ShorterTime);
    options_step(&mut s, None);
    assert_eq!(options_step(&mut s, Some(OptionsKey::Right)), OptionsAction::LongerTime);
    options_step(&mut s, None);
    assert_eq!(options_step(&mut s, Some(OptionsKey::Escape)), OptionsAction::ToMenu);
    options_step(&mut s, None);
    s.selected = MenuOptions::Reset;
    assert_eq!(options_step(&mut s, Some(OptionsKey::Return)), OptionsAction::ResetScores);
    options_step(&mut s, None);
    s.selected = MenuOptions::Back;
    assert_eq!(options_step(&mut s, Some(OptionsKey::Return)), OptionsAction::ToMenu);
}

#[test]
fn main_menu() {
    let s = menu_step(true, false, false);
    assert!(s.new_game && s.next == GameState::Game && !s.quit);
    let s = menu_step(true, true, false);
    assert!(s.new_game && s.next == GameState::Options);
    let s = menu_step(false, false, true);
    assert!(!s.new_game && s.next == GameState::Menu && s.quit);
}

#[test]
fn scores_are_padded_to_three() {
    assert_eq!(zero_pad3(0), "000");
    assert_eq!(zero_pad3(7), "007");
    assert_eq!(zero_pad3(42), "042");
    assert_eq!(zero_pad3(123), "123");
    assert_eq!(zero_pad3(12345), "12345");
    assert_eq!(zero_pad3(-5), "0-5");
}

use toybox::aim::{end_step, free_cell_list, game_frame, light_free_cell, new_session, start_round};
use toybox::scores::{default_saved_data, SaveDataUnit};

#[test]
fn free_cells_row_by_row() {
    let mut g = [[true; 5]; 5];
    g[0][3] = false;
    g[2][0] = false;
    g[4][4] = false;
    assert_eq!(free_cell_list(&g), vec![(0, 3), (2, 0), (4, 4)]);
    assert_eq!(free_cell_list(&[[false; 5]; 5]).len(), 25);
    assert!(free_cell_list(&[[true; 5]; 5]).is_empty());
}

#[test]
fn light_the_kth_free_cell() {
    let mut g = [[true; 5]; 5];
    g[0][3] = false;
    g[2][0] = false;
    g[4][4] = false;
    light_free_cell(&mut g, 1);
    assert!(g[2][0]);
    assert!(!g[0][3] && !g[4][4]);
    light_free_cell(&mut g, 1);
    assert!(g[4][4] && !g[0][3]);
}

fn session() -> toybox::aim::Session {
    new_session(default_saved_data())
}

#[test]
fn a_new_session() {
    let s = session();
    assert_eq!(lit(&s.grid), 3);
    assert_eq!((s.score, s.target_score, s.has_started, s.mouse_holded), (0, 40, false, false));
    assert_eq!(s.saved_data.len(), 5);
}

#[test]
fn a_round_restarts() {
    let mut s = session();
    s.score = 12;
    s.has_started = true;
    start_round(&mut s);
    assert_eq!(lit(&s.grid), 3);
    assert_eq!((s.score, s.target_score, s.has_started, s.mouse_holded), (0, 35, false, false));
}

fn lit_cell(s: &toybox::aim::Session) -> (usize, usize) {
    for i in 0..5 {
        for j in 0..5 {
            if s.grid[i][j] {
                return (i, j);
            }
        }
    }
    unreachable!()
}

#[test]
fn frames_click_once_per_press() {
    let mut s = session();
    let (x, y) = lit_cell(&s);
    let f = game_frame(&mut s, false, true, x, y, false, false);
    assert!(!f.game_over && !f.next_round && !f.new_game && !f.to_end);
    assert_eq!(s.score, 1);
    assert!(s.has_started && s.mouse_holded);
    assert_eq!(lit(&s.grid), 3);
    // the button is still down: no second click
    let (x2, y2) = lit_cell(&s);
    game_frame(&mut s, false, true, x2, y2, false, false);
    assert_eq!(s.score, 1);
    // released, then a miss
    game_frame(&mut s, false, false, 0, 0, false, false);
    assert!(!s.mouse_holded);
    let mut miss = (0, 0);
    'search: for i in 0..5 {
        for j in 0..5 {
            if !s.grid[i][j] {
                miss = (i, j);
                break 'search;
            }
        }
    }
    game_frame(&mut s, false, true, miss.0, miss.1, false, false);
    assert_eq!(s.score, 0);
}

#[test]
fn frames_time_up() {
    let mut s = session();
    s.score = 40;
    let f = game_frame(&mut s, true, false, 9, 9, false, false);
    assert!(f.next_round && !f.game_over && !f.to_end);
    assert_eq!(s.target_score, 75);
    s.score = 3;
    let f = game_frame(&mut s, true, false, 9, 9, false, false);
    assert!(f.game_over && f.to_end);
    assert_eq!(s.saved_data.len(), 5);
    assert_eq!(s.saved_data[0].score, 3);
    assert!(s.saved_data[1..].iter().all(|u: &SaveDataUnit| u.score == 0));
}

#[test]
fn frames_keys() {
    let mut s = session();
    s.score = 8;
    let f = game_frame(&mut s, false, false, 9, 9, true, false);
    assert!(f.new_game && !f.to_end);
    assert_eq!((s.score, s.target_score), (0, 35));
    let f = game_frame(&mut s, false, false, 9, 9, false, true);
    assert!(f.to_end && !f.game_over);
}

#[test]
fn end_screen() {
    let e = end_step(true, false);
    assert!(e.to_menu && !e.quit);
    let e = end_step(false, true);
    assert!(!e.to_menu && e.quit);
}

#[test]
fn frame_without_time_up_never_reports_a_clock_failure() {
    let mut s = session();
    let f = game_frame(&mut s, false, false, 9, 9, false, false);
    assert!(!f.clock_failed);
    s.score = 1;
    let f = game_frame(&mut s, true, false, 9, 9, false, false);
    assert!(f.game_over && !f.clock_failed);
}
