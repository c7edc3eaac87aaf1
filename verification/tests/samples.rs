use semantic::samples::accounts::{
    create_session, fetch_user, valid_after, Error, Session, User, UserService, UserServiceImpl,
    SESSION_SECONDS,
};
use semantic::samples::shapes::{calculate_sum, Point, Shape};
use semantic::samples::utils::helper;

#[test]
fn helper_answers_forty_two() {
    assert_eq!(helper(), 42);
}

#[test]
fn point_area_is_width_times_height() {
    let p = Point::new(10, 20);
    assert_eq!((p.x, p.y), (10, 20));
    assert_eq!(p.area(), 200);
    assert_eq!(Point::new(-3, 7).area(), -21);
    assert_eq!(Point::new(0, i32::MAX).area(), 0);
}

#[test]
fn sum_adds() {
    assert_eq!(calculate_sum(2, 3), 5);
    assert_eq!(calculate_sum(i32::MAX, -1), i32::MAX - 1);
    assert_eq!(calculate_sum(i32::MIN, 0), i32::MIN);
}

#[test]
fn any_password_but_the_empty_one_is_accepted() {
    let u = User::new(7, "ann".to_string(), "ann@example.org".to_string());
    assert_eq!(u.id, 7);
    assert_eq!(u.name, "ann");
    assert_eq!(u.email, "ann@example.org");
    assert!(u.authenticate("x"));
    assert!(u.check_password("secret"));
    assert!(!u.authenticate(""));
    assert!(!u.check_password(""));
}

#[test]
fn service_returns_the_first_user_with_the_id() {
    let mut service = UserServiceImpl { users: Vec::new() };
    assert!(service.get_user(1).is_none());
    assert_eq!(service.create_user(User::new(1, "a".to_string(), "a@x".to_string())), Ok(()));
    assert_eq!(service.create_user(User::new(2, "b".to_string(), "b@x".to_string())), Ok(()));
    assert_eq!(service.create_user(User::new(1, "c".to_string(), "c@x".to_string())), Ok(()));
    assert_eq!(service.users.len(), 3);
    let found = service.get_user(1).unwrap();
    assert_eq!((found.id, found.name.as_str(), found.email.as_str()), (1, "a", "a@x"));
    let found = service.get_user(2).unwrap();
    assert_eq!(found.name, "b");
    assert!(service.get_user(3).is_none());
}

#[test]
fn fetching_finds_nobody() {
    assert_eq!(fetch_user(1).err(), Some(Error::NotFound));
    assert_eq!(fetch_user(u64::MAX).err(), Some(Error::NotFound));
    assert_ne!(Error::NotFound, Error::InvalidInput);
}

#[test]
fn session_belongs_to_its_user_and_lasts_a_day() {
    let u = User::new(9, "n".to_string(), "e".to_string());
    let s = create_session(&u);
    assert_eq!(s.user_id, 9);
    assert!(s.is_valid());
    assert!(s.created_at.elapsed().as_secs() < 5);
    let s = Session::new(4);
    assert_eq!(s.user_id, 4);
    assert!(s.is_valid());
    assert_eq!(SESSION_SECONDS, 86400);
    assert!(valid_after(0));
    assert!(valid_after(86399));
    assert!(!valid_after(86400));
    assert!(!valid_after(u64::MAX));
}
