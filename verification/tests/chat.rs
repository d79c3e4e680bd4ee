use protocore::chat::{
    create_arrival_message, create_current_users_message, create_departure_message,
};

#[test]
fn chat_arrival_message() {
    assert_eq!(create_arrival_message("alice"), "* alice has entered the room\n");
}

#[test]
fn chat_departure_message() {
    assert_eq!(create_departure_message("alice"), "* alice has left the room\n");
}

#[test]
fn chat_users_message_empty_room() {
    assert_eq!(create_current_users_message(&vec![]), "* no users in room\n");
}

#[test]
fn chat_users_message_one_user() {
    let users = vec!["bob".to_string()];
    assert_eq!(create_current_users_message(&users), "* the room contains: bob\n");
}

#[test]
fn chat_users_message_several_users() {
    let users = vec!["bob".to_string(), "carol".to_string(), "dave".to_string()];
    assert_eq!(
        create_current_users_message(&users),
        "* the room contains: bob, carol, dave\n"
    );
}
